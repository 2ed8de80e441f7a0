//! The on-disk segment format: for each entry in key order, the key bytes,
//! one null terminator, then either a 4-byte little-endian value length and
//! the value bytes (live) or four zero bytes (tombstone).  A clean end falls
//! exactly on a key boundary; anything shorter is corrupt.

use vstd::prelude::*;
use vstd::bytes::{spec_u32_to_le_bytes, spec_u32_from_le_bytes, u32_to_le_bytes, u32_from_le_bytes,
    lemma_auto_spec_u32_to_from_le_bytes};
use vstd::utf8::valid_utf8;
use crate::StorageError;
use crate::keys::{valid_key, utf8_valid};
use crate::segment::{SSTableSegment, map_of, val_len, sorted_entries, valid_entries,
    canonical_size, lemma_map_of_absent, lemma_sorted_take};
use crate::keys::lemma_lex_trichotomy;

verus! {

/// The value field: a little-endian length then the bytes, or four zero bytes
/// for a tombstone.  An empty live value is indistinguishable from a
/// tombstone in this format.
pub open spec fn encode_value(v: Option<Seq<u8>>) -> Seq<u8> {
    match v {
        Some(b) => spec_u32_to_le_bytes(b.len() as u32) + b,
        None => spec_u32_to_le_bytes(0u32),
    }
}

/// One record: the key, its terminator, and the value field.
pub open spec fn encode_record(k: Seq<u8>, v: Option<Seq<u8>>) -> Seq<u8> {
    k + seq![0u8] + encode_value(v)
}

/// The whole segment image, record after record in entry order.
pub open spec fn encode_entries(es: Seq<(Seq<u8>, Option<Seq<u8>>)>) -> Seq<u8>
    decreases es.len(),
{
    if es.len() == 0 {
        Seq::empty()
    } else {
        encode_record(es.first().0, es.first().1) + encode_entries(es.drop_first())
    }
}

pub proof fn lemma_encode_entries_push(
    es: Seq<(Seq<u8>, Option<Seq<u8>>)>,
    x: (Seq<u8>, Option<Seq<u8>>),
)
    ensures
        encode_entries(es.push(x)) == encode_entries(es) + encode_record(x.0, x.1),
    decreases es.len(),
{
    if es.len() == 0 {
        assert(es.push(x).first() == x);
        assert(es.push(x).drop_first() =~= Seq::<(Seq<u8>, Option<Seq<u8>>)>::empty());
        assert(encode_entries(Seq::<(Seq<u8>, Option<Seq<u8>>)>::empty()) =~= Seq::<u8>::empty());
        assert(Seq::<u8>::empty() + encode_record(x.0, x.1) =~= encode_record(x.0, x.1));
        assert(encode_record(x.0, x.1) + Seq::<u8>::empty() =~= encode_record(x.0, x.1));
        assert(encode_entries(es.push(x)) =~= encode_entries(es) + encode_record(x.0, x.1));
    } else {
        lemma_encode_entries_push(es.drop_first(), x);
        assert(es.push(x).drop_first() =~= es.drop_first().push(x));
        assert(es.push(x).first() == es.first());
        assert(encode_record(es.first().0, es.first().1) + (encode_entries(es.drop_first())
            + encode_record(x.0, x.1)) =~= (encode_record(es.first().0, es.first().1)
            + encode_entries(es.drop_first())) + encode_record(x.0, x.1));
        assert(encode_entries(es.push(x)) =~= encode_entries(es) + encode_record(x.0, x.1));
    }
}

/// Index of the first null byte, or -1 when there is none.
pub open spec fn find_nul(bytes: Seq<u8>) -> int
    decreases bytes.len(),
{
    if bytes.len() == 0 {
        -1
    } else if bytes.first() == 0 {
        0
    } else {
        let r = find_nul(bytes.drop_first());
        if r < 0 {
            -1
        } else {
            r + 1
        }
    }
}

pub proof fn lemma_find_nul_none(bytes: Seq<u8>)
    requires
        forall|i: int| 0 <= i < bytes.len() ==> bytes[i] != 0,
    ensures
        find_nul(bytes) == -1,
    decreases bytes.len(),
{
    if bytes.len() > 0 {
        assert forall|i: int| 0 <= i < bytes.drop_first().len() implies bytes.drop_first()[i]
            != 0 by {
            assert(bytes.drop_first()[i] == bytes[i + 1]);
        }
        lemma_find_nul_none(bytes.drop_first());
    }
}

pub proof fn lemma_find_nul_at(bytes: Seq<u8>, j: int)
    requires
        0 <= j < bytes.len(),
        bytes[j] == 0,
        forall|i: int| 0 <= i < j ==> bytes[i] != 0,
    ensures
        find_nul(bytes) == j,
    decreases bytes.len(),
{
    if j > 0 {
        assert(bytes.first() != 0);
        assert forall|i: int| 0 <= i < j - 1 implies bytes.drop_first()[i] != 0 by {
            assert(bytes.drop_first()[i] == bytes[i + 1]);
        }
        assert(bytes.drop_first()[j - 1] == bytes[j]);
        lemma_find_nul_at(bytes.drop_first(), j - 1);
    }
}

/// The records framed in a segment image, or nothing when it is corrupt: a
/// missing terminator, a key that is not UTF-8, or an image ending inside a
/// record.
pub open spec fn parse_records(bytes: Seq<u8>) -> Option<Seq<(Seq<u8>, Option<Seq<u8>>)>>
    decreases bytes.len(),
{
    if bytes.len() == 0 {
        Some(Seq::empty())
    } else {
        let t = find_nul(bytes);
        if t < 0 {
            None
        } else if !valid_utf8(bytes.take(t)) {
            None
        } else if bytes.len() < t + 5 {
            None
        } else {
            let n = spec_u32_from_le_bytes(bytes.subrange(t + 1, t + 5)) as int;
            if n == 0 {
                match parse_records(bytes.skip(t + 5)) {
                    Some(rest) => Some(seq![(bytes.take(t), None::<Seq<u8>>)] + rest),
                    None => None,
                }
            } else if bytes.len() < t + 5 + n {
                None
            } else {
                match parse_records(bytes.skip(t + 5 + n)) {
                    Some(rest) => Some(
                        seq![(bytes.take(t), Some(bytes.subrange(t + 5, t + 5 + n)))] + rest,
                    ),
                    None => None,
                }
            }
        }
    }
}

/// The size a decode accounts: replaying each record through a segment's
/// insert, in order.
pub open spec fn replay_size(recs: Seq<(Seq<u8>, Option<Seq<u8>>)>) -> int
    decreases recs.len(),
{
    if recs.len() == 0 {
        0
    } else {
        let prev = replay_size(recs.drop_last());
        let m = map_of(recs.drop_last());
        let k = recs.last().0;
        let v = recs.last().1;
        if m.contains_key(k) && m[k] is Some {
            prev - m[k]->0.len() + val_len(v)
        } else {
            prev + k.len() + val_len(v)
        }
    }
}

/// Replaying entries whose keys are strictly sorted (so each key is fresh)
/// accounts exactly the canonical size.
pub proof fn lemma_replay_size_sorted(es: Seq<(Seq<u8>, Option<Seq<u8>>)>)
    requires
        sorted_entries(es),
    ensures
        replay_size(es) == canonical_size(es),
    decreases es.len(),
{
    if es.len() > 0 {
        assert(es.drop_last() =~= es.take(es.len() - 1));
        lemma_sorted_take(es, es.len() - 1);
        lemma_replay_size_sorted(es.drop_last());
        assert forall|i: int| 0 <= i < es.drop_last().len() implies (#[trigger] es.drop_last(
        )[i]).0 != es.last().0 by {
            assert(es.drop_last()[i] == es[i]);
            lemma_lex_trichotomy(es[i].0, es.last().0);
        }
        lemma_map_of_absent(es.drop_last(), es.last().0);
    }
}

/// No entry carries an empty live value; in this format such a value would
/// read back as a tombstone.
pub open spec fn no_empty_live(es: Seq<(Seq<u8>, Option<Seq<u8>>)>) -> bool {
    forall|i: int| 0 <= i < es.len() ==> ((#[trigger] es[i]).1 is Some ==> es[i].1->0.len() > 0)
}

/// Round-trip law: a segment image parses back to exactly the entries that
/// were encoded.  Entries with an empty live value are excluded: the format
/// writes them as tombstones.
pub proof fn lemma_segment_round_trip(es: Seq<(Seq<u8>, Option<Seq<u8>>)>)
    requires
        valid_entries(es),
        no_empty_live(es),
    ensures
        parse_records(encode_entries(es)) == Some(es),
    decreases es.len(),
{
    lemma_auto_spec_u32_to_from_le_bytes();
    if es.len() == 0 {
        assert(parse_records(encode_entries(es)) == Some(Seq::<(Seq<u8>, Option<Seq<u8>>)>::empty()));
        assert(Seq::<(Seq<u8>, Option<Seq<u8>>)>::empty() =~= es);
    } else {
        let k = es.first().0;
        let v = es.first().1;
        let rest = es.drop_first();
        assert forall|i: int| 0 <= i < rest.len() implies valid_key((#[trigger] rest[i]).0)
            && val_len(rest[i].1) <= u32::MAX && (rest[i].1 is Some ==> rest[i].1->0.len()
            > 0) by {
            assert(rest[i] == es[i + 1]);
        }
        lemma_segment_round_trip(rest);
        let whole = encode_entries(es);
        let record = encode_record(k, v);
        let tail = encode_entries(rest);
        assert(whole == record + tail);
        let klen = k.len() as int;
        let vbytes = encode_value(v);
        assert(valid_key(k) && val_len(v) <= u32::MAX);
        assert(whole[klen] == 0) by {
            assert(record[klen] == (k + seq![0u8] + vbytes)[klen]);
        }
        assert forall|i: int| 0 <= i < klen implies whole[i] != 0 by {
            assert(whole[i] == k[i]);
        }
        lemma_find_nul_at(whole, klen);
        assert(whole.take(klen) =~= k);
        assert(whole.len() >= klen + 5) by {
            match v {
                Some(b) => {
                    assert(vbytes.len() == 4 + b.len());
                },
                None => {
                    assert(vbytes.len() == 4);
                },
            }
        }
        assert(whole.subrange(klen + 1, klen + 5) =~= vbytes.take(4));
        match v {
            Some(b) => {
                assert(vbytes.take(4) =~= spec_u32_to_le_bytes(b.len() as u32));
                let n = b.len() as int;
                assert(spec_u32_from_le_bytes(whole.subrange(klen + 1, klen + 5)) == b.len()
                    as u32);
                assert(n > 0);
                assert(whole.len() >= klen + 5 + n);
                assert(whole.subrange(klen + 5, klen + 5 + n) =~= b);
                assert(whole.skip(klen + 5 + n) =~= tail);
                assert(seq![(k, Some(b))] + rest =~= es);
            },
            None => {
                assert(vbytes.take(4) =~= spec_u32_to_le_bytes(0u32));
                assert(spec_u32_from_le_bytes(whole.subrange(klen + 1, klen + 5)) == 0u32);
                assert(whole.skip(klen + 5) =~= tail);
                assert(seq![(k, None::<Seq<u8>>)] + rest =~= es);
            },
        }
    }
}

/// Decode-side round trip: a sorted, well-formed segment image read back
/// yields the identical key-to-entry mapping, the canonical size accounting,
/// and one serial per entry.  Entries with empty live values are excluded:
/// the format writes them as tombstones.
pub proof fn lemma_round_trip_mapping(es: Seq<(Seq<u8>, Option<Seq<u8>>)>)
    requires
        sorted_entries(es),
        valid_entries(es),
        no_empty_live(es),
    ensures
        parse_records(encode_entries(es)) == Some(es),
        map_of(parse_records(encode_entries(es))->0) == map_of(es),
        replay_size(parse_records(encode_entries(es))->0) == canonical_size(es),
{
    lemma_segment_round_trip(es);
    lemma_replay_size_sorted(es);
}

/// Copies `bytes[from..to]`.
pub fn copy_range(bytes: &Vec<u8>, from: usize, to: usize) -> (r: Vec<u8>)
    requires
        from <= to <= bytes@.len(),
    ensures
        r@ == bytes@.subrange(from as int, to as int),
{
    let mut out: Vec<u8> = Vec::new();
    out.extend_from_slice(&bytes[from..to]);
    proof {
        assert(out@ =~= bytes@.subrange(from as int, to as int));
    }
    out
}

/// Writes a segment in the binary format, entry after entry in key order.
#[verifier::loop_isolation(false)]
pub fn encode_segment(seg: &SSTableSegment) -> (r: Vec<u8>)
    requires
        seg.wf(),
    ensures
        r@ == encode_entries(seg.view_entries()),
{
    let ghost es = seg.view_entries();
    let n = seg.entry_count();
    let mut out: Vec<u8> = Vec::new();
    proof {
        assert(es.take(0) =~= Seq::<(Seq<u8>, Option<Seq<u8>>)>::empty());
        assert(out@ =~= encode_entries(es.take(0)));
    }
    let mut i: usize = 0;
    while i < n
        invariant
            0 <= i <= n,
            out@ == encode_entries(es.take(i as int)),
        decreases n - i,
    {
        let e = seg.entry_at(i);
        let ghost before = out@;
        out.extend_from_slice(e.key.as_slice());
        out.push(0);
        match &e.value {
            Some(b) => {
                let len_bytes = u32_to_le_bytes(b.len() as u32);
                out.extend_from_slice(len_bytes.as_slice());
                out.extend_from_slice(b.as_slice());
            },
            None => {
                let len_bytes = u32_to_le_bytes(0u32);
                out.extend_from_slice(len_bytes.as_slice());
            },
        }
        proof {
            let pair = es[i as int];
            assert(out@ =~= before + encode_record(pair.0, pair.1));
            lemma_encode_entries_push(es.take(i as int), pair);
            assert(es.take(i as int).push(pair) =~= es.take(i as int + 1));
        }
        i = i + 1;
    }
    proof {
        assert(es.take(n as int) =~= es);
    }
    out
}

/// Finds the next null terminator at or after `from`.
#[verifier::loop_isolation(false)]
pub(crate) fn scan_nul(bytes: &Vec<u8>, from: usize) -> (r: usize)
    requires
        from <= bytes@.len(),
    ensures
        from <= r <= bytes@.len(),
        forall|i: int| from <= i < r ==> bytes@[i] != 0,
        r < bytes@.len() ==> bytes@[r as int] == 0,
{
    let n = bytes.len();
    let mut t = from;
    while t < n
        invariant
            from <= t <= n,
            forall|i: int| from <= i < t ==> bytes@[i] != 0,
        decreases n - t,
    {
        if bytes[t] == 0 {
            return t;
        }
        t = t + 1;
    }
    t
}

/// Reads a segment image back, replaying each record in order; the result
/// carries the previous chain's terminal serial plus one per record.  Corrupt
/// images and serials past the 64-bit range are invalid data.
#[verifier::loop_isolation(false)]
#[verifier::rlimit(100)]
pub fn decode_segment(bytes: &Vec<u8>, initial_serial: u64) -> (r: Result<
    SSTableSegment,
    StorageError,
>)
    ensures
        match r {
            Ok(seg) => {
                &&& parse_records(bytes@) is Some
                &&& initial_serial + parse_records(bytes@)->0.len() <= u64::MAX
                &&& seg.wf()
                &&& seg.view_map() == map_of(parse_records(bytes@)->0)
                &&& seg.spec_size() == replay_size(parse_records(bytes@)->0)
                &&& seg.spec_serial() == initial_serial + parse_records(bytes@)->0.len()
            },
            Err(e) => {
                &&& e == StorageError::InvalidData
                &&& (parse_records(bytes@) is None || initial_serial + parse_records(
                    bytes@,
                )->0.len() > u64::MAX)
            },
        },
{
    let n = bytes.len();
    let mut seg = SSTableSegment::new(initial_serial);
    let mut pos: usize = 0;
    let ghost mut done: Seq<(Seq<u8>, Option<Seq<u8>>)> = Seq::empty();
    proof {
        assert(bytes@.skip(0) =~= bytes@);
        assert(Seq::<(Seq<u8>, Option<Seq<u8>>)>::empty() + parse_records(bytes@)->0 =~= parse_records(
            bytes@,
        )->0);
    }
    while pos < n
        invariant
            0 <= pos <= n,
            n == bytes@.len(),
            seg.wf(),
            seg.view_map() == map_of(done),
            seg.spec_size() == replay_size(done),
            seg.spec_size() <= pos,
            seg.spec_serial() == initial_serial + done.len(),
            initial_serial + done.len() <= u64::MAX,
            match parse_records(bytes@.skip(pos as int)) {
                Some(rest) => parse_records(bytes@) == Some(done + rest),
                None => parse_records(bytes@) is None,
            },
        decreases n - pos,
    {
        let ghost rem = bytes@.skip(pos as int);
        let t = scan_nul(bytes, pos);
        proof {
            assert forall|i: int| 0 <= i < t - pos implies rem[i] == bytes@[pos + i] by {}
            if t == n {
                assert forall|i: int| 0 <= i < rem.len() implies rem[i] != 0 by {
                    assert(rem[i] == bytes@[pos + i]);
                }
                lemma_find_nul_none(rem);
            } else {
                assert forall|i: int| 0 <= i < t - pos implies rem[i] != 0 by {
                    assert(rem[i] == bytes@[pos + i]);
                }
                assert(rem[t - pos] == bytes@[t as int]);
                lemma_find_nul_at(rem, t - pos);
            }
        }
        if t == n {
            return Err(StorageError::InvalidData);
        }
        let key = copy_range(bytes, pos, t);
        proof {
            assert(key@ =~= rem.take(t - pos));
        }
        if !utf8_valid(key.as_slice()) {
            return Err(StorageError::InvalidData);
        }
        if n - t < 5 {
            proof {
                assert(rem.len() < (t - pos) + 5);
            }
            return Err(StorageError::InvalidData);
        }
        let vlen = u32_from_le_bytes(&bytes[t + 1..t + 5]);
        proof {
            assert(bytes@.subrange(t as int + 1, t as int + 5) =~= rem.subrange(
                t - pos + 1,
                t - pos + 5,
            ));
        }
        let new_pos: usize = if vlen == 0 {
            t + 5
        } else {
            if n - (t + 5) < (vlen as usize) {
                proof {
                    assert(rem.len() < (t - pos) + 5 + vlen as int);
                }
                return Err(StorageError::InvalidData);
            }
            t + 5 + (vlen as usize)
        };
        let ghost rec: (Seq<u8>, Option<Seq<u8>>) = if vlen == 0 {
            (key@, None::<Seq<u8>>)
        } else {
            (key@, Some(bytes@.subrange(t as int + 5, t as int + 5 + vlen as int)))
        };
        proof {
            if vlen != 0 {
                assert(bytes@.subrange(t as int + 5, t as int + 5 + vlen as int) =~= rem.subrange(
                    t - pos + 5,
                    t - pos + 5 + vlen as int,
                ));
            }
            assert(bytes@.skip(new_pos as int) =~= rem.skip(new_pos - pos));
            assert(parse_records(rem) == (match parse_records(bytes@.skip(new_pos as int)) {
                Some(r2) => Some(seq![rec] + r2),
                None => None::<Seq<(Seq<u8>, Option<Seq<u8>>)>>,
            }));
            assert(valid_key(rec.0)) by {
                assert(forall|i: int| 0 <= i < key@.len() ==> key@[i] != 0);
            }
        }
        if seg.serial() == u64::MAX {
            proof {
                assert(parse_records(rem) is Some ==> parse_records(rem)->0.len() >= 1);
            }
            return Err(StorageError::InvalidData);
        }
        let value: Option<Vec<u8>> = if vlen == 0 {
            None
        } else {
            Some(copy_range(bytes, t + 5, t + 5 + (vlen as usize)))
        };
        proof {
            assert(value.deep_view() == rec.1);
            assert(val_len(rec.1) <= u32::MAX);
            assert(seg.spec_size() + rec.0.len() + val_len(rec.1) <= new_pos <= usize::MAX);
        }
        seg.insert(key, value);
        proof {
            assert(done.push(rec).drop_last() =~= done);
            assert(map_of(done.push(rec)) == map_of(done).insert(rec.0, rec.1));
            assert(seg.view_map() == map_of(done.push(rec)));
            assert(seg.spec_size() == replay_size(done.push(rec)));
            assert(seg.spec_size() <= new_pos);
            match parse_records(bytes@.skip(new_pos as int)) {
                Some(r2) => {
                    assert(done + (seq![rec] + r2) =~= done.push(rec) + r2);
                },
                None => {},
            }
            done = done.push(rec);
        }
        pos = new_pos;
    }
    proof {
        assert(bytes@.skip(n as int) =~= Seq::<u8>::empty());
        assert(parse_records(Seq::<u8>::empty()) == Some(Seq::<(Seq<u8>, Option<Seq<u8>>)>::empty()));
        assert(done + Seq::<(Seq<u8>, Option<Seq<u8>>)>::empty() =~= done);
    }
    Ok(seg)
}

} // verus!
