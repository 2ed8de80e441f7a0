//! The storage engine: a sorted segment table coupled with a write-ahead log
//! over a segmented byte stream.  Every mutation is journaled and flushed
//! before it is applied to the table; reads never touch the log.

use vstd::prelude::*;
use vstd::string::StringSliceAdditionalSpecFns;
use vstd::utf8::valid_utf8;
use crate::StorageError;
use crate::keys::valid_key;
use crate::log::{Log, ByteStream, spec_frame, parse_frames, well_framed, encode_frames,
    lemma_append_adds_frame};
use crate::stream::{SegmentedByteStream, views_after_write};
use crate::table::{SSTable, NamedFile, table_lookup, recovered_from, insert_post, delete_post,
    input_names_ok, input_serials_distinct, is_sorted_arrangement, chain_ok};
use crate::segment::val_len;
use crate::codec::{find_nul, copy_range, scan_nul, lemma_find_nul_at, lemma_find_nul_none};
use crate::keys::utf8_valid;
use crate::log::{MemoryStream, lemma_parse_frames_len};
use crate::wire::{spec_u32_to_be_bytes, spec_u64_to_be_bytes, spec_u64_from_be_bytes,
    u64_to_be_bytes, u64_from_be_bytes, lemma_u64_be_round_trip};

verus! {

/// Write-ahead opcode of a live write.
pub const OP_INSERT: u8 = 1;

/// Write-ahead opcode of a tombstone.
pub const OP_DELETE: u8 = 2;

/// Field terminator in write-ahead records and segment images.
pub const OP_TERMINATOR: u8 = 0;

/// Size bound of one table segment, in key and value bytes.
pub const TABLE_SEGMENT_LIMIT: usize = 1024 * 1024;

/// Size bound of one write-ahead log file, in bytes.
pub const LOG_SEGMENT_LIMIT: u64 = 1024 * 1024;

/// The journaled form of a live write: an 8-byte big-endian serial, the
/// opcode, the key and its terminator, the value and its terminator.
pub open spec fn wal_insert_record(serial: u64, key: Seq<u8>, value: Seq<u8>) -> Seq<u8> {
    spec_u64_to_be_bytes(serial) + seq![OP_INSERT] + key + seq![OP_TERMINATOR] + value
        + seq![OP_TERMINATOR]
}

/// The journaled form of a tombstone: serial, opcode, key, terminator.
pub open spec fn wal_delete_record(serial: u64, key: Seq<u8>) -> Seq<u8> {
    spec_u64_to_be_bytes(serial) + seq![OP_DELETE] + key + seq![OP_TERMINATOR]
}

/// What a write-ahead record means: its serial, the key, and the value (none
/// for a tombstone); or nothing when the record is malformed.
pub open spec fn parse_wal_record(b: Seq<u8>) -> Option<(u64, Seq<u8>, Option<Seq<u8>>)> {
    if b.len() < 9 {
        None
    } else {
        let serial = spec_u64_from_be_bytes(b.take(8));
        let rest = b.skip(9);
        if b[8] == OP_INSERT {
            let t = find_nul(rest);
            if t < 0 {
                None
            } else if !valid_utf8(rest.take(t)) {
                None
            } else if rest.len() < t + 2 {
                None
            } else if rest.last() != 0 {
                None
            } else {
                Some((serial, rest.take(t), Some(rest.subrange(t + 1, rest.len() - 1))))
            }
        } else if b[8] == OP_DELETE {
            if rest.len() < 1 {
                None
            } else if rest.last() != 0 {
                None
            } else if find_nul(rest) != rest.len() - 1 {
                None
            } else if !valid_utf8(rest.take(rest.len() - 1)) {
                None
            } else {
                Some((serial, rest.take(rest.len() - 1), None))
            }
        } else {
            None
        }
    }
}

/// A journaled live write reads back as itself.
pub proof fn lemma_wal_insert_round_trip(serial: u64, key: Seq<u8>, value: Seq<u8>)
    requires
        valid_key(key),
    ensures
        parse_wal_record(wal_insert_record(serial, key, value)) == Some(
            (serial, key, Some(value)),
        ),
{
    lemma_u64_be_round_trip(serial);
    let b = wal_insert_record(serial, key, value);
    assert(b.take(8) =~= spec_u64_to_be_bytes(serial));
    assert(b[8] == OP_INSERT);
    let rest = b.skip(9);
    assert(rest =~= key + seq![OP_TERMINATOR] + value + seq![OP_TERMINATOR]);
    assert(rest[key.len() as int] == 0);
    assert forall|i: int| 0 <= i < key.len() implies rest[i] != 0 by {
        assert(rest[i] == key[i]);
    }
    crate::codec::lemma_find_nul_at(rest, key.len() as int);
    assert(rest.take(key.len() as int) =~= key);
    assert(rest.last() == 0);
    assert(rest.subrange(key.len() as int + 1, rest.len() - 1) =~= value);
}

/// A journaled tombstone reads back as itself.
pub proof fn lemma_wal_delete_round_trip(serial: u64, key: Seq<u8>)
    requires
        valid_key(key),
    ensures
        parse_wal_record(wal_delete_record(serial, key)) == Some(
            (serial, key, None::<Seq<u8>>),
        ),
{
    lemma_u64_be_round_trip(serial);
    let b = wal_delete_record(serial, key);
    assert(b.take(8) =~= spec_u64_to_be_bytes(serial));
    assert(b[8] == OP_DELETE);
    let rest = b.skip(9);
    assert(rest =~= key + seq![OP_TERMINATOR]);
    assert(rest[key.len() as int] == 0);
    assert forall|i: int| 0 <= i < key.len() implies rest[i] != 0 by {
        assert(rest[i] == key[i]);
    }
    crate::codec::lemma_find_nul_at(rest, key.len() as int);
    assert(rest.take(rest.len() - 1) =~= key);
}


/// Bytes across all frames.
pub open spec fn sum_frame_lens(frames: Seq<Seq<u8>>) -> int
    decreases frames.len(),
{
    if frames.len() == 0 {
        0
    } else {
        frames.first().len() + sum_frame_lens(frames.drop_first())
    }
}

pub proof fn lemma_sum_frame_lens_nonneg(frames: Seq<Seq<u8>>)
    ensures
        sum_frame_lens(frames) >= 0,
    decreases frames.len(),
{
    if frames.len() > 0 {
        lemma_sum_frame_lens_nonneg(frames.drop_first());
    }
}

/// Every frame parses as a write-ahead record.
pub open spec fn replay_ok(frames: Seq<Seq<u8>>) -> bool {
    forall|i: int| 0 <= i < frames.len() ==> parse_wal_record(#[trigger] frames[i]) is Some
}

/// The reading view after replaying the frames in order: a record whose
/// serial is newer than the running latest is reapplied and advances the
/// latest by one; the rest are skipped.
pub open spec fn replay_map(
    m: Map<Seq<u8>, Option<Seq<u8>>>,
    latest: int,
    frames: Seq<Seq<u8>>,
) -> Map<Seq<u8>, Option<Seq<u8>>>
    decreases frames.len(),
{
    if frames.len() == 0 {
        m
    } else {
        match parse_wal_record(frames.first()) {
            Some(r) => if r.0 > latest {
                replay_map(m.insert(r.1, r.2), latest + 1, frames.drop_first())
            } else {
                replay_map(m, latest, frames.drop_first())
            },
            None => m,
        }
    }
}

/// Reads one journaled record back: its serial, key, and value or tombstone.
#[verifier::rlimit(50)]
fn decode_wal_record(bytes: &Vec<u8>) -> (r: Option<(u64, Vec<u8>, Option<Vec<u8>>)>)
    ensures
        match r {
            Some(t) => {
                &&& parse_wal_record(bytes@) == Some((t.0, t.1@, t.2.deep_view()))
                &&& valid_key(t.1@)
                &&& t.1@.len() + val_len(t.2.deep_view()) + 10 <= bytes@.len()
            },
            None => parse_wal_record(bytes@) is None,
        },
{
    let n = bytes.len();
    if n < 9 {
        return None;
    }
    let serial = u64_from_be_bytes(&bytes[0..8]);
    proof {
        assert(bytes@.subrange(0, 8) =~= bytes@.take(8));
    }
    let op = bytes[8];
    let ghost rest = bytes@.skip(9);
    proof {
        assert(forall|i: int| 0 <= i < rest.len() ==> rest[i] == bytes@[9 + i]);
    }
    if op == OP_INSERT {
        let t = scan_nul(bytes, 9);
        proof {
            if t == n {
                lemma_find_nul_none(rest);
            } else {
                lemma_find_nul_at(rest, t - 9);
            }
        }
        if t == n {
            return None;
        }
        let key = copy_range(bytes, 9, t);
        proof {
            assert(key@ =~= rest.take(t - 9));
        }
        if !utf8_valid(key.as_slice()) {
            return None;
        }
        if n - t < 2 {
            proof {
                assert(rest.len() < (t - 9) + 2);
            }
            return None;
        }
        if bytes[n - 1] != 0 {
            proof {
                assert(rest.last() == bytes@[n - 1]);
            }
            return None;
        }
        let value = copy_range(bytes, t + 1, n - 1);
        proof {
            assert(rest.last() == bytes@[n - 1]);
            assert(value@ =~= rest.subrange(t - 9 + 1, rest.len() - 1));
            assert(valid_key(key@));
        }
        Some((serial, key, Some(value)))
    } else if op == OP_DELETE {
        if n < 10 {
            return None;
        }
        if bytes[n - 1] != 0 {
            proof {
                assert(rest.last() == bytes@[n - 1]);
            }
            return None;
        }
        let t = scan_nul(bytes, 9);
        proof {
            assert(rest.last() == bytes@[n - 1]);
            assert(t < n) by {
                if t == n {
                    lemma_find_nul_none(rest);
                }
            }
            lemma_find_nul_at(rest, t - 9);
        }
        if t != n - 1 {
            return None;
        }
        let key = copy_range(bytes, 9, n - 1);
        proof {
            assert(key@ =~= rest.take(rest.len() - 1));
        }
        if !utf8_valid(key.as_slice()) {
            return None;
        }
        proof {
            assert(valid_key(key@));
        }
        Some((serial, key, None))
    } else {
        None
    }
}

/// The embedded key-value engine: durable insert, get and delete over byte
/// values and text keys.
pub struct SSTEngine {
    kv: SSTable,
    log: Log<SegmentedByteStream>,
}

impl SSTEngine {
    /// The table.
    pub closed spec fn table_spec(self) -> SSTable {
        self.kv
    }

    /// The write-ahead log.
    pub closed spec fn log_spec(self) -> Log<SegmentedByteStream> {
        self.log
    }

    /// The reading view.
    pub open spec fn view_map(self) -> Map<Seq<u8>, Option<Seq<u8>>> {
        self.table_spec().view_map()
    }

    /// The journaled records, in order.
    pub open spec fn wal_frames(self) -> Seq<Seq<u8>> {
        self.log_spec().frames()
    }

    pub open spec fn wf(self) -> bool {
        &&& self.table_spec().wf()
        &&& self.log_spec().inv()
        &&& well_framed(self.log_spec().contents())
    }

    /// Recovers the table from the data directory's files and starts a fresh
    /// write-ahead log; no replay into the table occurs here.
    pub fn try_new(data_files: Vec<NamedFile>) -> (r: Result<SSTEngine, StorageError>)
        ensures
            match r {
                Ok(e) => {
                    &&& e.wf()
                    &&& recovered_from(e.table_spec(), data_files@, TABLE_SEGMENT_LIMIT)
                    &&& e.log_spec().contents() == Seq::<u8>::empty()
                    &&& e.wal_frames() == Seq::<Seq<u8>>::empty()
                    &&& e.log_spec().storage_spec().stream_buffers() == Seq::<Seq<u8>>::empty()
                    &&& e.log_spec().storage_spec().stream_bound() == LOG_SEGMENT_LIMIT
                },
                Err(StorageError::InvalidInput) => !input_names_ok(data_files@),
                Err(StorageError::InvalidData) => {
                    &&& input_names_ok(data_files@)
                    &&& (!input_serials_distinct(data_files@) || exists|fs: Seq<(u64, Seq<u8>)>|
                        #[trigger] is_sorted_arrangement(fs, data_files@) && !chain_ok(fs, 0))
                },
            },
    {
        let kv = match SSTable::try_new(data_files, TABLE_SEGMENT_LIMIT) {
            Ok(kv) => kv,
            Err(e) => {
                return Err(e);
            },
        };
        let stream = SegmentedByteStream::new(LOG_SEGMENT_LIMIT);
        let log = Log::new(stream);
        let e = SSTEngine { kv, log };
        proof {
            assert(parse_frames(e.log_spec().contents()) =~= Seq::<Seq<u8>>::empty());
            assert(encode_frames(parse_frames(e.log_spec().contents())) =~= Seq::<u8>::empty());
        }
        Ok(e)
    }

    /// The table, for inspection and for mirroring sealed files to disk.
    pub fn table(&self) -> (r: &SSTable)
        ensures
            *r == self.table_spec(),
    {
        &self.kv
    }

    /// The write-ahead log, for inspection and for mirroring its stream.
    pub fn wal(&self) -> (r: &Log<SegmentedByteStream>)
        ensures
            *r == self.log_spec(),
    {
        &self.log
    }

    /// Reads the most recent write of the key; the log is never consulted.
    pub fn get(&self, key: &str) -> (r: Result<Option<Vec<u8>>, StorageError>)
        requires
            self.wf(),
        ensures
            match r {
                Ok(v) => v.deep_view() == table_lookup(
                    self.table_spec().seg_seq(),
                    key.spec_bytes(),
                ),
                Err(_) => false,
            },
    {
        Ok(self.kv.get(key))
    }

    /// Journals a live write, flushes the log, then applies it to the table:
    /// log-before-apply is the engine's durability contract.
    pub fn insert(&mut self, key: &str, value: &[u8]) -> (r: Result<(), StorageError>)
        requires
            old(self).wf(),
            forall|i: int| 0 <= i < key.spec_bytes().len() ==> key.spec_bytes()[i] != 0,
            key.spec_bytes().len() + value@.len() + 11 <= u32::MAX,
            old(self).log_spec().contents().len() + 4 + key.spec_bytes().len() + value@.len() + 11
                <= u64::MAX,
            old(self).table_spec().seg_seq().last().spec_serial() < u64::MAX,
            old(self).table_spec().seg_seq().last().spec_size() + key.spec_bytes().len()
                + value@.len() <= usize::MAX,
        ensures
            final(self).wf(),
            r is Ok,
            insert_post(
                old(self).table_spec(),
                final(self).table_spec(),
                key.spec_bytes(),
                value@,
            ),
            ({
                let record = wal_insert_record(
                    (old(self).table_spec().seg_seq().last().spec_serial() + 1) as u64,
                    key.spec_bytes(),
                    value@,
                );
                let bound = old(self).log_spec().storage_spec().stream_bound();
                &&& final(self).wal_frames() == old(self).wal_frames().push(record)
                &&& final(self).log_spec().contents() == old(self).log_spec().contents()
                    + spec_frame(record)
                &&& final(self).log_spec().storage_spec().stream_buffers() == views_after_write(
                    views_after_write(
                        old(self).log_spec().storage_spec().stream_buffers(),
                        spec_u32_to_be_bytes(record.len() as u32),
                        bound,
                    ),
                    record,
                    bound,
                )
                &&& final(self).log_spec().storage_spec().stream_bound() == bound
            }),
    {
        let serial = self.kv.latest_serial() + 1;
        let mut rec = u64_to_be_bytes(serial);
        rec.push(OP_INSERT);
        rec.extend_from_slice(key.as_bytes());
        rec.push(OP_TERMINATOR);
        rec.extend_from_slice(value);
        rec.push(OP_TERMINATOR);
        proof {
            assert(rec@ =~= wal_insert_record(serial, key.spec_bytes(), value@));
        }
        let ghost old_contents = self.log.contents();
        let _ = self.log.append(rec.as_slice());
        proof {
            lemma_append_adds_frame(old_contents, rec@);
        }
        let _ = self.log.flush();
        self.kv.insert(key, value)
    }

    /// Journals a tombstone, flushes the log, then applies it to the table.
    pub fn delete(&mut self, key: &str) -> (r: Result<(), StorageError>)
        requires
            old(self).wf(),
            forall|i: int| 0 <= i < key.spec_bytes().len() ==> key.spec_bytes()[i] != 0,
            key.spec_bytes().len() + 10 <= u32::MAX,
            old(self).log_spec().contents().len() + 4 + key.spec_bytes().len() + 10 <= u64::MAX,
            old(self).table_spec().seg_seq().last().spec_serial() < u64::MAX,
        ensures
            final(self).wf(),
            r is Ok,
            delete_post(old(self).table_spec(), final(self).table_spec(), key.spec_bytes()),
            ({
                let record = wal_delete_record(
                    (old(self).table_spec().seg_seq().last().spec_serial() + 1) as u64,
                    key.spec_bytes(),
                );
                let bound = old(self).log_spec().storage_spec().stream_bound();
                &&& final(self).wal_frames() == old(self).wal_frames().push(record)
                &&& final(self).log_spec().contents() == old(self).log_spec().contents()
                    + spec_frame(record)
                &&& final(self).log_spec().storage_spec().stream_buffers() == views_after_write(
                    views_after_write(
                        old(self).log_spec().storage_spec().stream_buffers(),
                        spec_u32_to_be_bytes(record.len() as u32),
                        bound,
                    ),
                    record,
                    bound,
                )
                &&& final(self).log_spec().storage_spec().stream_bound() == bound
            }),
    {
        let serial = self.kv.latest_serial() + 1;
        let mut rec = u64_to_be_bytes(serial);
        rec.push(OP_DELETE);
        rec.extend_from_slice(key.as_bytes());
        rec.push(OP_TERMINATOR);
        proof {
            assert(rec@ =~= wal_delete_record(serial, key.spec_bytes()));
        }
        let ghost old_contents = self.log.contents();
        let _ = self.log.append(rec.as_slice());
        proof {
            lemma_append_adds_frame(old_contents, rec@);
        }
        let _ = self.log.flush();
        self.kv.delete(key);
        Ok(())
    }

    /// Recovery from a previous journal (its files concatenated in order):
    /// replays the framed records in ascending order, reapplying each insert
    /// or delete whose serial is newer than the table's latest serial and
    /// skipping the rest.  The engine's own log is left as it is.
    #[verifier::loop_isolation(false)]
    #[verifier::rlimit(100)]
    pub fn replay_wal(&mut self, wal: Vec<u8>) -> (r: Result<(), StorageError>)
        requires
            old(self).wf(),
            old(self).table_spec().seg_seq().last().spec_serial() + parse_frames(wal@).len()
                <= u64::MAX,
            old(self).table_spec().seg_seq().last().spec_size() + sum_frame_lens(
                parse_frames(wal@),
            ) <= usize::MAX,
        ensures
            final(self).wf(),
            final(self).log_spec() == old(self).log_spec(),
            match r {
                Ok(_) => replay_ok(parse_frames(wal@)) && final(self).view_map() == replay_map(
                    old(self).view_map(),
                    old(self).table_spec().seg_seq().last().spec_serial() as int,
                    parse_frames(wal@),
                ),
                Err(e) => e == StorageError::InvalidData && !replay_ok(parse_frames(wal@)),
            },
    {
        let ghost frames = parse_frames(wal@);
        let ghost old_view = old(self).view_map();
        let ghost old_latest = old(self).table_spec().seg_seq().last().spec_serial() as int;
        let scan = Log::new(MemoryStream::from_bytes(wal));
        proof {
            lemma_parse_frames_len(scan.contents());
        }
        let mut it = scan.iter();
        let ghost mut idx: int = 0;
        proof {
            assert(crate::log::tail_from(scan.contents(), 0) =~= scan.contents());
            assert(frames.skip(0) =~= frames);
        }
        loop
            invariant
                0 <= idx <= frames.len(),
                frames == parse_frames(scan.contents()),
                it.src() == scan,
                scan.inv(),
                it.remaining() == frames.skip(idx),
                self.kv.wf(),
                self.log_spec() == old(self).log_spec(),
                well_framed(self.log_spec().contents()),
                self.log_spec().inv(),
                forall|j: int| 0 <= j < idx ==> parse_wal_record(#[trigger] frames[j]) is Some,
                replay_map(old_view, old_latest, frames) == replay_map(
                    self.kv.view_map(),
                    self.kv.seg_seq().last().spec_serial() as int,
                    frames.skip(idx),
                ),
                self.kv.seg_seq().last().spec_serial() as int <= old_latest + idx,
                old_latest + frames.len() <= u64::MAX,
                self.kv.seg_seq().last().spec_size() + sum_frame_lens(frames.skip(idx))
                    <= usize::MAX,
            decreases frames.len() - idx,
        {
            let next = it.next();
            match next {
                None => {
                    proof {
                        assert(idx == frames.len());
                    }
                    break ;
                },
                Some(fb) => {
                    proof {
                        assert(frames.skip(idx)[0] == frames[idx]);
                        assert(fb@ == frames[idx]);
                        assert(frames.skip(idx).drop_first() =~= frames.skip(idx + 1));
                        assert(frames.skip(idx).first() == frames[idx]);
                        assert(sum_frame_lens(frames.skip(idx)) == frames[idx].len()
                            + sum_frame_lens(frames.skip(idx + 1)));
                        lemma_sum_frame_lens_nonneg(frames.skip(idx + 1));
                    }
                    let rec = decode_wal_record(&fb);
                    match rec {
                        None => {
                            return Err(StorageError::InvalidData);
                        },
                        Some((serial, kbytes, val)) => {
                            let ghost pre_m = self.kv.view_map();
                            let ghost pre_l = self.kv.seg_seq().last().spec_serial() as int;
                            let ghost rec_v: (u64, Seq<u8>, Option<Seq<u8>>) = (
                                serial,
                                kbytes@,
                                val.deep_view(),
                            );
                            let latest = self.kv.latest_serial();
                            if serial > latest {
                                proof {
                                    assert(self.kv.seg_seq().last().spec_serial() < u64::MAX);
                                    assert(val_len(val.deep_view()) <= frames[idx].len());
                                    assert(frames[idx].len() <= u32::MAX);
                                    assert(self.kv.seg_seq().last().spec_size() + kbytes@.len()
                                        + val_len(val.deep_view()) <= usize::MAX);
                                }
                                match val {
                                    Some(v) => {
                                        proof {
                                            assert(v@.len() <= u32::MAX);
                                            assert(v.deep_view() =~= v@);
                                        }
                                        let _ = self.kv.insert_raw(kbytes, v);
                                    },
                                    None => {
                                        self.kv.delete_raw(kbytes);
                                    },
                                }
                                proof {
                                    assert(self.kv.view_map() == pre_m.insert(
                                        rec_v.1,
                                        rec_v.2,
                                    ));
                                    assert(self.kv.seg_seq().last().spec_serial() as int == pre_l
                                        + 1);
                                }
                            }
                            proof {
                                assert(parse_wal_record(frames.skip(idx).first()) == Some(rec_v));
                                assert(replay_map(pre_m, pre_l, frames.skip(idx)) == replay_map(
                                    self.kv.view_map(),
                                    self.kv.seg_seq().last().spec_serial() as int,
                                    frames.skip(idx + 1),
                                ));
                                idx = idx + 1;
                            }
                        },
                    }
                },
            }
        }
        proof {
            assert(frames.skip(frames.len() as int) =~= Seq::<Seq<u8>>::empty());
        }
        Ok(())
    }
}

} // verus!
