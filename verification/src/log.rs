//! A generic length-prefixed append-only record log over any byte stream:
//! an in-memory buffer or a segmented stream.  Each record is framed by a
//! 4-byte big-endian length; iteration rescans from the start, and a short
//! read of either field ends the sequence cleanly.

use vstd::prelude::*;
use crate::StorageError;
use crate::stream::{SegmentedByteStream, SeekOrigin, concat_all, views_after_write};
use crate::wire::{spec_u32_to_be_bytes, spec_u32_from_be_bytes, u32_to_be_bytes,
    u32_from_be_bytes, lemma_u32_be_round_trip};

verus! {

/// Storage a log can live on: a logical byte string that can be appended to
/// and read at any offset.
pub trait ByteStream: Sized {
    /// The whole logical byte content.
    spec fn stream_contents(&self) -> Seq<u8>;

    /// The stream's well-formedness.
    spec fn stream_inv(&self) -> bool;

    /// The backing buffers, in order; their concatenation is the content.
    spec fn stream_buffers(&self) -> Seq<Seq<u8>>;

    /// The bound past which a full tail buffer rotates on the next append.
    spec fn stream_bound(&self) -> u64;

    /// Appends at the logical end, wherever any read cursor stands; the
    /// buffers evolve by the rotation rule under the stream's bound.
    fn stream_append(&mut self, data: &[u8])
        requires
            old(self).stream_inv(),
            old(self).stream_contents().len() + data@.len() <= u64::MAX,
        ensures
            final(self).stream_inv(),
            final(self).stream_contents() == old(self).stream_contents() + data@,
            final(self).stream_buffers() == views_after_write(
                old(self).stream_buffers(),
                data@,
                old(self).stream_bound(),
            ),
            final(self).stream_bound() == old(self).stream_bound(),
    ;

    /// Reads up to `count` bytes at absolute offset `start`; the result is
    /// short exactly when the logical end intervenes.
    fn stream_read_at(&self, start: u64, count: usize) -> (data: Vec<u8>)
        requires
            self.stream_inv(),
        ensures
            ({
                let len = self.stream_contents().len() as int;
                let lo = if start as int <= len {
                    start as int
                } else {
                    len
                };
                let hi = if start as int + count <= len {
                    start as int + count
                } else {
                    len
                };
                let hi2 = if lo <= hi {
                    hi
                } else {
                    lo
                };
                data@ == self.stream_contents().subrange(lo, hi2)
            }),
    ;

    /// The logical content fits the 64-bit address space.
    proof fn stream_bounded(&self)
        requires
            self.stream_inv(),
        ensures
            self.stream_contents().len() <= u64::MAX,
    ;

    /// The buffers carry exactly the content.
    proof fn stream_buffers_concat(&self)
        requires
            self.stream_inv(),
        ensures
            concat_all(self.stream_buffers()) == self.stream_contents(),
    ;

    /// Pushes buffered bytes toward durable storage, where there is any.
    fn stream_flush(&mut self)
        requires
            old(self).stream_inv(),
        ensures
            *final(self) == *old(self),
    ;
}

impl ByteStream for SegmentedByteStream {
    open spec fn stream_contents(&self) -> Seq<u8> {
        self.contents()
    }

    open spec fn stream_inv(&self) -> bool {
        self.inv()
    }

    open spec fn stream_buffers(&self) -> Seq<Seq<u8>> {
        self.seg_views()
    }

    open spec fn stream_bound(&self) -> u64 {
        self.max_size()
    }

    fn stream_append(&mut self, data: &[u8]) {
        let _ = self.seek(SeekOrigin::End(0));
        self.write(data);
    }

    fn stream_read_at(&self, start: u64, count: usize) -> (data: Vec<u8>) {
        self.read_at(start, count)
    }

    proof fn stream_bounded(&self) {
        self.contents_bounded();
    }

    proof fn stream_buffers_concat(&self) {
    }

    fn stream_flush(&mut self) {
        self.flush()
    }
}

/// An in-memory byte buffer used as log storage.
pub struct MemoryStream {
    data: Vec<u8>,
}

impl MemoryStream {
    /// A fresh empty buffer.
    pub fn new() -> (s: MemoryStream)
        ensures
            s.stream_contents() =~= Seq::<u8>::empty(),
            s.stream_inv(),
    {
        MemoryStream { data: Vec::new() }
    }

    /// A buffer over existing bytes, for rescanning them as a log.
    pub fn from_bytes(data: Vec<u8>) -> (s: MemoryStream)
        ensures
            s.stream_contents() == data@,
            s.stream_inv(),
    {
        let n = data.len();
        proof {
            assert(n == data@.len());
        }
        MemoryStream { data }
    }
}

impl ByteStream for MemoryStream {
    closed spec fn stream_contents(&self) -> Seq<u8> {
        self.data@
    }

    closed spec fn stream_inv(&self) -> bool {
        self.data@.len() <= u64::MAX
    }

    closed spec fn stream_buffers(&self) -> Seq<Seq<u8>> {
        seq![self.data@]
    }

    closed spec fn stream_bound(&self) -> u64 {
        u64::MAX
    }

    fn stream_append(&mut self, data: &[u8]) {
        let ghost before = self.data@;
        self.data.extend_from_slice(data);
        proof {
            assert(self.data@ =~= before + data@);
            assert(!crate::stream::needs_rotation(seq![before], u64::MAX));
            assert(views_after_write(seq![before], data@, u64::MAX) =~= seq![before + data@]);
            assert(self.stream_buffers() =~= seq![before + data@]);
        }
    }

    fn stream_read_at(&self, start: u64, count: usize) -> (data: Vec<u8>) {
        let len = self.data.len();
        if start >= (len as u64) {
            proof {
                assert(self.data@.subrange(len as int, len as int) =~= Seq::<u8>::empty());
            }
            return Vec::new();
        }
        let s = start as usize;
        let e = if count <= len - s {
            s + count
        } else {
            len
        };
        let mut out: Vec<u8> = Vec::new();
        out.extend_from_slice(&self.data[s..e]);
        proof {
            assert(out@ =~= self.data@.subrange(s as int, e as int));
        }
        out
    }

    proof fn stream_bounded(&self) {
    }

    proof fn stream_buffers_concat(&self) {
        assert(concat_all(seq![self.data@].drop_last()) + self.data@ =~= self.data@) by {
            assert(seq![self.data@].drop_last() =~= Seq::<Seq<u8>>::empty());
        }
    }

    fn stream_flush(&mut self) {
    }
}

/// The frame around one record: a 4-byte big-endian length, then the bytes.
pub open spec fn spec_frame(entry: Seq<u8>) -> Seq<u8> {
    spec_u32_to_be_bytes(entry.len() as u32) + entry
}

/// All records framed in `bytes`, parsed from the front.  A short length
/// field or a short payload ends the sequence cleanly: truncation is
/// indistinguishable from a clean end.
pub open spec fn parse_frames(bytes: Seq<u8>) -> Seq<Seq<u8>>
    decreases bytes.len(),
{
    if bytes.len() < 4 {
        Seq::empty()
    } else {
        let n = spec_u32_from_be_bytes(bytes.take(4)) as int;
        if bytes.len() - 4 < n {
            Seq::empty()
        } else {
            seq![bytes.subrange(4, 4 + n)] + parse_frames(bytes.skip(4 + n))
        }
    }
}

/// The byte string holding the given records, each in its frame.
pub open spec fn encode_frames(entries: Seq<Seq<u8>>) -> Seq<u8>
    decreases entries.len(),
{
    if entries.len() == 0 {
        Seq::empty()
    } else {
        spec_frame(entries.first()) + encode_frames(entries.drop_first())
    }
}

/// A byte string is well-framed when it is exactly a sequence of frames.
pub open spec fn well_framed(bytes: Seq<u8>) -> bool {
    bytes == encode_frames(parse_frames(bytes))
}

pub proof fn lemma_parse_frame_prepend(entry: Seq<u8>, rest: Seq<u8>)
    requires
        entry.len() <= u32::MAX,
    ensures
        parse_frames(spec_frame(entry) + rest) == seq![entry] + parse_frames(rest),
{
    lemma_u32_be_round_trip(entry.len() as u32);
    let whole = spec_frame(entry) + rest;
    assert(whole.take(4) =~= spec_u32_to_be_bytes(entry.len() as u32));
    assert(whole.subrange(4, 4 + entry.len() as int) =~= entry);
    assert(whole.skip(4 + entry.len() as int) =~= rest);
}

/// Framing round-trips: parsing what was encoded yields the records back.
pub proof fn lemma_frames_round_trip(entries: Seq<Seq<u8>>)
    requires
        forall|i: int| 0 <= i < entries.len() ==> (#[trigger] entries[i].len()) <= u32::MAX,
    ensures
        parse_frames(encode_frames(entries)) == entries,
    decreases entries.len(),
{
    if entries.len() == 0 {
        assert(parse_frames(encode_frames(entries)) =~= entries);
    } else {
        lemma_frames_round_trip(entries.drop_first());
        lemma_parse_frame_prepend(entries.first(), encode_frames(entries.drop_first()));
        assert(seq![entries.first()] + entries.drop_first() =~= entries);
    }
}

/// Every parsed record fits its 32-bit length field.
pub proof fn lemma_parse_frames_len(bytes: Seq<u8>)
    ensures
        forall|i: int|
            0 <= i < parse_frames(bytes).len() ==> (#[trigger] parse_frames(bytes)[i].len())
                <= u32::MAX,
    decreases bytes.len(),
{
    if bytes.len() >= 4 {
        let n = spec_u32_from_be_bytes(bytes.take(4)) as int;
        if bytes.len() - 4 >= n {
            lemma_parse_frames_len(bytes.skip(4 + n));
            let ps = parse_frames(bytes);
            assert forall|i: int| 0 <= i < ps.len() implies (#[trigger] ps[i].len())
                <= u32::MAX by {
                if i == 0 {
                    assert(ps[0] == bytes.subrange(4, 4 + n));
                } else {
                    assert(ps[i] == parse_frames(bytes.skip(4 + n))[i - 1]);
                }
            }
        }
    }
}

/// Appending one frame to a well-framed byte string appends exactly that
/// record to what parses out of it, and keeps it well-framed.
pub proof fn lemma_append_adds_frame(bytes: Seq<u8>, entry: Seq<u8>)
    requires
        well_framed(bytes),
        entry.len() <= u32::MAX,
    ensures
        parse_frames(bytes + spec_frame(entry)) == parse_frames(bytes).push(entry),
        well_framed(bytes + spec_frame(entry)),
{
    let ps = parse_frames(bytes);
    lemma_parse_frames_len(bytes);
    lemma_encode_frames_push(ps, entry);
    assert(encode_frames(ps.push(entry)) == bytes + spec_frame(entry));
    lemma_frames_round_trip(ps.push(entry));
}

pub proof fn lemma_encode_frames_push(entries: Seq<Seq<u8>>, entry: Seq<u8>)
    ensures
        encode_frames(entries.push(entry)) == encode_frames(entries) + spec_frame(entry),
    decreases entries.len(),
{
    if entries.len() == 0 {
        assert(entries.push(entry).first() == entry);
        assert(entries.push(entry).drop_first() =~= Seq::<Seq<u8>>::empty());
        assert(encode_frames(Seq::<Seq<u8>>::empty()) =~= Seq::<u8>::empty());
        assert(Seq::<u8>::empty() + spec_frame(entry) =~= spec_frame(entry));
        assert(spec_frame(entry) + Seq::<u8>::empty() =~= spec_frame(entry));
        assert(encode_frames(entries) + spec_frame(entry) =~= spec_frame(entry));
        assert(encode_frames(entries.push(entry)) =~= encode_frames(entries) + spec_frame(entry));
    } else {
        lemma_encode_frames_push(entries.drop_first(), entry);
        assert(entries.push(entry).drop_first() =~= entries.drop_first().push(entry));
        assert(entries.push(entry).first() == entries.first());
        assert(spec_frame(entries.first()) + (encode_frames(entries.drop_first()) + spec_frame(
            entry,
        )) =~= (spec_frame(entries.first()) + encode_frames(entries.drop_first())) + spec_frame(
            entry,
        ));
        assert(encode_frames(entries.push(entry)) =~= encode_frames(entries) + spec_frame(entry));
    }
}

/// A length-prefixed append-only record log over a byte stream.  The stream
/// is owned: the log and its iterators share it by borrowing, one logical
/// access at a time.
pub struct Log<T: ByteStream> {
    storage: T,
}

impl<T: ByteStream> Log<T> {
    /// The underlying stream.
    pub closed spec fn storage_spec(self) -> T {
        self.storage
    }

    /// The log's raw byte content.
    pub open spec fn contents(self) -> Seq<u8> {
        self.storage_spec().stream_contents()
    }

    /// The records framed in the log, in order.
    pub open spec fn frames(self) -> Seq<Seq<u8>> {
        parse_frames(self.contents())
    }

    pub open spec fn inv(self) -> bool {
        self.storage_spec().stream_inv()
    }

    /// Wraps a stream as a log.
    pub fn new(storage: T) -> (log: Log<T>)
        ensures
            log.storage_spec() == storage,
    {
        Log { storage }
    }

    /// A reference to the underlying stream.
    pub fn storage(&self) -> (r: &T)
        ensures
            *r == self.storage_spec(),
    {
        &self.storage
    }

    /// Appends one record: its length in four big-endian bytes, then its
    /// bytes, at the logical end of the stream.
    pub fn append(&mut self, entry: &[u8]) -> (r: Result<(), StorageError>)
        requires
            old(self).inv(),
            entry@.len() <= u32::MAX,
            old(self).contents().len() + 4 + entry@.len() <= u64::MAX,
        ensures
            final(self).inv(),
            r is Ok,
            final(self).contents() == old(self).contents() + spec_frame(entry@),
            final(self).storage_spec().stream_buffers() == views_after_write(
                views_after_write(
                    old(self).storage_spec().stream_buffers(),
                    spec_u32_to_be_bytes(entry@.len() as u32),
                    old(self).storage_spec().stream_bound(),
                ),
                entry@,
                old(self).storage_spec().stream_bound(),
            ),
            final(self).storage_spec().stream_bound() == old(self).storage_spec().stream_bound(),
    {
        let len_bytes = u32_to_be_bytes(entry.len() as u32);
        self.storage.stream_append(len_bytes.as_slice());
        self.storage.stream_append(entry);
        proof {
            assert((old(self).contents() + spec_u32_to_be_bytes(entry@.len() as u32)) + entry@
                =~= old(self).contents() + spec_frame(entry@));
        }
        Ok(())
    }

    /// Forwards to the underlying stream.
    pub fn flush(&mut self) -> (r: Result<(), StorageError>)
        requires
            old(self).inv(),
        ensures
            *final(self) == *old(self),
            r is Ok,
    {
        self.storage.stream_flush();
        Ok(())
    }

    /// A fresh iterator that rescans the log from offset zero.
    pub fn iter(&self) -> (it: LogIterator<T>)
        ensures
            it.src() == *self,
            it.at() == 0,
    {
        LogIterator { log: self, position: 0 }
    }
}

/// What is left of `bytes` from offset `pos` on.
pub open spec fn tail_from(bytes: Seq<u8>, pos: int) -> Seq<u8> {
    if 0 <= pos <= bytes.len() {
        bytes.skip(pos)
    } else {
        Seq::empty()
    }
}

/// A restartable scan over a log's frames.  Each yielded record is an
/// independent snapshot.
pub struct LogIterator<'a, T: ByteStream> {
    log: &'a Log<T>,
    position: u64,
}

impl<'a, T: ByteStream> LogIterator<'a, T> {
    /// The log being scanned.
    pub closed spec fn src(self) -> Log<T> {
        *self.log
    }

    /// The scan offset.
    pub closed spec fn at(self) -> u64 {
        self.position
    }

    /// The records not yet yielded.
    pub open spec fn remaining(self) -> Seq<Seq<u8>> {
        parse_frames(tail_from(self.src().contents(), self.at() as int))
    }

    /// Yields the next record, or nothing at a clean or truncated end.
    pub fn next(&mut self) -> (r: Option<Vec<u8>>)
        requires
            old(self).src().inv(),
        ensures
            final(self).src() == old(self).src(),
            match r {
                None => {
                    &&& final(self).at() == old(self).at()
                    &&& old(self).remaining().len() == 0
                },
                Some(v) => {
                    &&& old(self).remaining().len() > 0
                    &&& v@ == old(self).remaining()[0]
                    &&& final(self).at() == old(self).at() + 4 + v@.len()
                    &&& final(self).remaining() == old(self).remaining().drop_first()
                },
            },
    {
        let ghost contents = self.log.contents();
        let ghost pos = self.position as int;
        proof {
            self.log.storage.stream_bounded();
        }
        let len_bytes = self.log.storage.stream_read_at(self.position, 4);
        if len_bytes.len() < 4 {
            proof {
                if pos <= contents.len() {
                    assert(tail_from(contents, pos) =~= contents.subrange(pos, contents.len() as int));
                    assert(tail_from(contents, pos).len() < 4);
                } else {
                    assert(tail_from(contents, pos).len() == 0);
                }
            }
            return None;
        }
        proof {
            assert(pos + 4 <= contents.len());
            assert(len_bytes@ =~= tail_from(contents, pos).take(4));
        }
        let n = u32_from_be_bytes(len_bytes.as_slice());
        let payload = self.log.storage.stream_read_at(self.position + 4, n as usize);
        if payload.len() < n as usize {
            proof {
                let rest = tail_from(contents, pos);
                assert(rest.len() - 4 < n as int);
            }
            return None;
        }
        proof {
            let rest = tail_from(contents, pos);
            assert(pos + 4 + n as int <= contents.len());
            assert(payload@ =~= rest.subrange(4, 4 + n as int));
            assert(self.remaining()[0] == rest.subrange(4, 4 + n as int));
        }
        self.position = self.position + 4 + (n as u64);
        proof {
            let rest = tail_from(contents, pos);
            assert(tail_from(contents, pos + 4 + n as int) =~= rest.skip(4 + n as int));
            assert(parse_frames(rest) == seq![rest.subrange(4, 4 + n as int)] + parse_frames(
                rest.skip(4 + n as int),
            ));
            assert((seq![rest.subrange(4, 4 + n as int)] + parse_frames(rest.skip(4 + n as int)))
                .drop_first() =~= parse_frames(rest.skip(4 + n as int)));
        }
        Some(payload)
    }
}

} // verus!
