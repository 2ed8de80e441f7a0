//! One logical seekable byte stream over an ordered sequence of bounded-size
//! backing buffers.  Writes always append to the tail buffer and rotate to a
//! fresh buffer once the tail exceeds the configured size; reads honor the
//! cursor and may span several buffers; the cursor only governs reads.

use vstd::prelude::*;
use crate::StorageError;

verus! {

/// Concatenation of a sequence of byte buffers, in order.
pub open spec fn concat_all(ss: Seq<Seq<u8>>) -> Seq<u8>
    decreases ss.len(),
{
    if ss.len() == 0 {
        Seq::empty()
    } else {
        concat_all(ss.drop_last()) + ss.last()
    }
}

pub proof fn lemma_concat_take_step(ss: Seq<Seq<u8>>, i: int)
    requires
        0 <= i < ss.len(),
    ensures
        concat_all(ss.take(i + 1)).len() == concat_all(ss.take(i)).len() + ss[i].len(),
{
    assert(ss.take(i + 1).drop_last() =~= ss.take(i));
    assert(ss.take(i + 1).last() == ss[i]);
}

pub proof fn lemma_concat_take_le(ss: Seq<Seq<u8>>, i: int, j: int)
    requires
        0 <= i <= j <= ss.len(),
    ensures
        concat_all(ss.take(i)).len() <= concat_all(ss.take(j)).len(),
    decreases j - i,
{
    if i < j {
        lemma_concat_take_le(ss, i, j - 1);
        lemma_concat_take_step(ss, j - 1);
    }
}

pub proof fn lemma_concat_take_all(ss: Seq<Seq<u8>>)
    ensures
        concat_all(ss.take(ss.len() as int)) == concat_all(ss),
{
    assert(ss.take(ss.len() as int) =~= ss);
}

/// The byte at offset `k` of buffer `i` appears in the concatenation at the
/// buffer's start offset plus `k`.
pub proof fn lemma_concat_index(ss: Seq<Seq<u8>>, i: int, k: int)
    requires
        0 <= i < ss.len(),
        0 <= k < ss[i].len(),
    ensures
        concat_all(ss.take(i)).len() + k < concat_all(ss).len(),
        concat_all(ss)[concat_all(ss.take(i)).len() + k] == ss[i][k],
    decreases ss.len(),
{
    if i == ss.len() - 1 {
        assert(ss.drop_last() =~= ss.take(i));
    } else {
        lemma_concat_index(ss.drop_last(), i, k);
        assert(ss.drop_last().take(i) =~= ss.take(i));
    }
}

/// Where the next write lands: a fresh tail buffer is opened when none exists
/// or when the tail has grown past the configured bound.
pub open spec fn needs_rotation(views: Seq<Seq<u8>>, max: u64) -> bool {
    views.len() == 0 || views.last().len() > max
}

/// The backing buffers after appending `data` under bound `max`.
pub open spec fn views_after_write(views: Seq<Seq<u8>>, data: Seq<u8>, max: u64) -> Seq<Seq<u8>> {
    if needs_rotation(views, max) {
        views.push(data)
    } else {
        views.update(views.len() - 1, views.last() + data)
    }
}

pub proof fn lemma_views_after_write(views: Seq<Seq<u8>>, data: Seq<u8>, max: u64)
    ensures
        concat_all(views_after_write(views, data, max)) == concat_all(views) + data,
{
    if needs_rotation(views, max) {
        assert(views.push(data).drop_last() =~= views);
    } else {
        let n = views.len() as int;
        let updated = views.update(n - 1, views.last() + data);
        assert(updated.drop_last() =~= views.drop_last());
        assert(updated.last() == views.last() + data);
        assert(concat_all(views.drop_last()) + (views.last() + data) =~= (concat_all(
            views.drop_last(),
        ) + views.last()) + data);
    }
}

/// Targets of a cursor move, relative to the stream start, the cursor, or the
/// logical end.
#[derive(Clone, Copy, PartialEq, Eq, Debug)]
pub enum SeekOrigin {
    Start(u64),
    Current(i64),
    End(i64),
}

struct StreamSegment {
    data: Vec<u8>,
    start: u64,
}

/// One logical byte stream backed by rotating bounded-size buffers.
pub struct SegmentedByteStream {
    segments: Vec<StreamSegment>,
    position: u64,
    max_segment_size: u64,
}

impl SegmentedByteStream {
    /// The backing buffers, in order.
    pub closed spec fn seg_views(self) -> Seq<Seq<u8>> {
        self.segments@.map_values(|s: StreamSegment| s.data@)
    }

    /// The whole logical byte content, in order.
    pub open spec fn contents(self) -> Seq<u8> {
        concat_all(self.seg_views())
    }

    /// The read cursor.
    pub closed spec fn pos(self) -> u64 {
        self.position
    }

    /// The configured bound on a backing buffer.
    pub closed spec fn max_size(self) -> u64 {
        self.max_segment_size
    }

    /// Start offset of backing buffer `i` within the logical stream.
    pub open spec fn seg_start(self, i: int) -> int {
        concat_all(self.seg_views().take(i)).len() as int
    }

    /// Each buffer starts where the previous ones end, and the whole stream
    /// fits the 64-bit address space.
    pub closed spec fn inv(self) -> bool {
        &&& forall|i: int|
            0 <= i < self.segments@.len() ==> (#[trigger] self.segments@[i].start) as int
                == self.seg_start(i)
        &&& self.contents().len() <= u64::MAX
    }

    /// A well-formed stream's content fits the 64-bit address space.
    pub proof fn contents_bounded(&self)
        requires
            self.inv(),
        ensures
            self.contents().len() <= u64::MAX,
    {
    }

    /// A fresh empty stream with the given per-buffer bound.
    pub fn new(max_segment_size: u64) -> (s: SegmentedByteStream)
        ensures
            s.inv(),
            s.contents() =~= Seq::<u8>::empty(),
            s.seg_views() =~= Seq::<Seq<u8>>::empty(),
            s.pos() == 0,
            s.max_size() == max_segment_size,
    {
        let s = SegmentedByteStream { segments: Vec::new(), position: 0, max_segment_size };
        proof {
            assert(s.seg_views() =~= Seq::<Seq<u8>>::empty());
        }
        s
    }

    /// The total logical length.
    pub fn total_len(&self) -> (n: u64)
        requires
            self.inv(),
        ensures
            n as int == self.contents().len(),
    {
        if self.segments.len() == 0 {
            proof {
                assert(self.seg_views() =~= Seq::<Seq<u8>>::empty());
            }
            0
        } else {
            let i = self.segments.len() - 1;
            let seg = &self.segments[i];
            proof {
                lemma_concat_take_step(self.seg_views(), i as int);
                lemma_concat_take_all(self.seg_views());
                assert(self.seg_views()[i as int] == seg.data@);
            }
            seg.start + (seg.data.len() as u64)
        }
    }

    /// The read cursor.
    pub fn position(&self) -> (p: u64)
        ensures
            p == self.pos(),
    {
        self.position
    }

    /// How many backing buffers exist.
    pub fn segment_count(&self) -> (n: usize)
        ensures
            n == self.seg_views().len(),
    {
        self.segments.len()
    }

    /// The size of backing buffer `i`.
    pub fn segment_size(&self, i: usize) -> (n: u64)
        requires
            i < self.seg_views().len(),
        ensures
            n == self.seg_views()[i as int].len(),
    {
        let seg = &self.segments[i];
        proof {
            assert(self.seg_views()[i as int] == seg.data@);
        }
        seg.data.len() as u64
    }

    /// The bytes of backing buffer `i`, for mirroring to durable storage.
    pub fn segment_bytes(&self, i: usize) -> (r: &Vec<u8>)
        requires
            i < self.seg_views().len(),
        ensures
            r@ == self.seg_views()[i as int],
    {
        let seg = &self.segments[i];
        proof {
            assert(self.seg_views()[i as int] == seg.data@);
        }
        &seg.data
    }

    /// Appends `data` to the tail buffer, rotating first if the tail exceeds
    /// the bound; the cursor advances by the amount written.
    #[verifier::rlimit(30)]
    pub fn write(&mut self, data: &[u8]) -> (n: usize)
        requires
            old(self).inv(),
            old(self).contents().len() + data@.len() <= u64::MAX,
            old(self).pos() + data@.len() <= u64::MAX,
        ensures
            final(self).inv(),
            n == data@.len(),
            final(self).contents() == old(self).contents() + data@,
            final(self).seg_views() == views_after_write(
                old(self).seg_views(),
                data@,
                old(self).max_size(),
            ),
            final(self).pos() == old(self).pos() + data@.len(),
            final(self).max_size() == old(self).max_size(),
    {
        proof {
            lemma_views_after_write(old(self).seg_views(), data@, old(self).max_size());
        }
        let rotate: bool = if self.segments.len() == 0 {
            true
        } else {
            let last_idx = self.segments.len() - 1;
            proof {
                assert(self.seg_views()[last_idx as int] == self.segments@[last_idx as int].data@);
            }
            (self.segments[last_idx].data.len() as u64) > self.max_segment_size
        };
        if rotate {
            let start = self.total_len();
            let seg = StreamSegment { data: Vec::new(), start };
            self.segments.push(seg);
            proof {
                assert(self.seg_views() =~= old(self).seg_views().push(Seq::<u8>::empty()));
            }
        }
        let ghost mid = self.segments@;
        let ghost mid_views = self.seg_views();
        proof {
            if !rotate {
                assert(mid_views =~= old(self).seg_views());
            }
        }
        let last_idx = self.segments.len() - 1;
        let seg = &mut self.segments[last_idx];
        seg.data.extend_from_slice(data);
        self.position = self.position + (data.len() as u64);
        proof {
            let target = views_after_write(old(self).seg_views(), data@, old(self).max_size());
            assert(self.segments@[last_idx as int].data@ == mid[last_idx as int].data@ + data@);
            assert(self.segments@[last_idx as int].start == mid[last_idx as int].start);
            assert(self.seg_views() =~= target) by {
                if rotate {
                    assert(mid_views.last() =~= Seq::<u8>::empty());
                    assert(Seq::<u8>::empty() + data@ =~= data@);
                }
                assert forall|i: int|
                    0 <= i < self.segments@.len() implies #[trigger] self.seg_views()[i]
                    == target[i] by {
                    assert(self.seg_views()[i] == self.segments@[i].data@);
                }
            }
            assert forall|i: int| 0 <= i < self.segments@.len() implies (
            #[trigger] self.segments@[i].start) as int == self.seg_start(i) by {
                assert(self.seg_views().take(i) =~= mid_views.take(i));
                if i < old(self).segments@.len() {
                    assert(mid_views.take(i) =~= old(self).seg_views().take(i));
                } else {
                    assert(mid_views.take(i) =~= old(self).seg_views());
                }
            }
        }
        data.len()
    }

    /// Binary search for the backing buffer whose range holds offset `start`.
    #[verifier::loop_isolation(false)]
    #[verifier::rlimit(60)]
    fn locate(&self, start: u64) -> (i: usize)
        requires
            self.inv(),
            (start as int) < self.contents().len(),
        ensures
            i < self.seg_views().len(),
            self.seg_start(i as int) <= start as int,
            (start as int) < self.seg_start(i as int) + self.seg_views()[i as int].len(),
    {
        let ghost views = self.seg_views();
        let n = self.segments.len();
        proof {
            if n == 0 {
                assert(views =~= Seq::<Seq<u8>>::empty());
            }
            lemma_concat_take_step(views, n - 1);
            lemma_concat_take_all(views);
        }
        let mut lo_i: usize = 0;
        let mut hi_i: usize = n;
        while lo_i < hi_i
            invariant
                0 <= lo_i <= hi_i <= n,
                forall|j: int|
                    0 <= j < lo_i ==> self.seg_start(j) + (#[trigger] self.seg_views()[j].len())
                        <= start as int,
                forall|j: int|
                    hi_i <= j < n ==> self.seg_start(j) + (#[trigger] self.seg_views()[j].len())
                        > start as int,
            decreases hi_i - lo_i,
        {
            let mid = lo_i + (hi_i - lo_i) / 2;
            let seg = &self.segments[mid];
            proof {
                assert(views[mid as int] == seg.data@);
                lemma_concat_take_step(views, mid as int);
                lemma_concat_take_le(views, mid as int + 1, n as int);
                lemma_concat_take_all(views);
            }
            let end = seg.start + (seg.data.len() as u64);
            if end <= start {
                lo_i = mid + 1;
                proof {
                    assert forall|j: int|
                        0 <= j < lo_i implies self.seg_start(j) + (
                    #[trigger] self.seg_views()[j].len()) <= start as int by {
                        lemma_concat_take_step(views, j);
                        lemma_concat_take_le(views, j + 1, mid as int + 1);
                        lemma_concat_take_step(views, mid as int);
                    }
                }
            } else {
                hi_i = mid;
                proof {
                    assert forall|j: int|
                        hi_i <= j < n implies self.seg_start(j) + (
                    #[trigger] self.seg_views()[j].len()) > start as int by {
                        if j > mid as int {
                            lemma_concat_take_step(views, j);
                            lemma_concat_take_le(views, mid as int + 1, j + 1);
                        }
                    }
                }
            }
        }
        proof {
            lemma_concat_take_step(views, n - 1);
            lemma_concat_take_all(views);
            if lo_i == n {
                assert(self.seg_start(n - 1) + views[n - 1].len() <= start as int);
                assert(false);
            }
            if (start as int) < self.seg_start(lo_i as int) {
                if lo_i == 0 {
                    assert(views.take(0) =~= Seq::<Seq<u8>>::empty());
                    assert(false);
                } else {
                    lemma_concat_take_step(views, lo_i as int - 1);
                    assert(false);
                }
            }
        }
        lo_i
    }

    /// Reads up to `count` bytes starting at absolute offset `start`, spanning
    /// backing buffers as needed; short only at the logical end.
    #[verifier::loop_isolation(false)]
    #[verifier::rlimit(100)]
    pub fn read_at(&self, start: u64, count: usize) -> (data: Vec<u8>)
        requires
            self.inv(),
        ensures
            ({
                let len = self.contents().len() as int;
                let lo = if start as int <= len {
                    start as int
                } else {
                    len
                };
                let hi = if start as int + count <= len {
                    start as int + count
                } else {
                    len
                };
                let hi2 = if lo <= hi {
                    hi
                } else {
                    lo
                };
                data@ == self.contents().subrange(lo, hi2)
            }),
    {
        let total = self.total_len();
        if start >= total {
            proof {
                assert(self.contents().subrange(
                    self.contents().len() as int,
                    self.contents().len() as int,
                ) =~= Seq::<u8>::empty());
            }
            return Vec::new();
        }
        let n = self.segments.len();
        let lo_i = self.locate(start);
        let mut result: Vec<u8> = Vec::new();
        let mut i = lo_i;
        let mut cur = start;
        while i < n && result.len() < count
            invariant
                self.inv(),
                lo_i <= i <= n,
                n == self.seg_views().len(),
                result@.len() <= count,
                cur as int == start as int + result@.len(),
                result@ == self.contents().subrange(start as int, cur as int),
                i < n ==> self.seg_start(i as int) <= cur as int <= self.seg_start(i as int)
                    + self.seg_views()[i as int].len(),
                i == n ==> cur as int == self.contents().len(),
                start as int <= self.contents().len(),
            decreases n - i, count - result@.len(),
        {
            let seg = &self.segments[i];
            proof {
                assert(self.seg_views()[i as int] == seg.data@);
                assert((self.segments@[i as int].start) as int == self.seg_start(i as int));
                lemma_concat_take_step(self.seg_views(), i as int);
                lemma_concat_take_le(self.seg_views(), i as int + 1, n as int);
                lemma_concat_take_all(self.seg_views());
            }
            let local64: u64 = cur - seg.start;
            proof {
                assert(local64 as int == cur as int - self.seg_start(i as int));
                assert(local64 <= seg.data@.len());
            }
            let local = local64 as usize;
            let avail = seg.data.len() - local;
            let need = count - result.len();
            let take_n = if avail < need {
                avail
            } else {
                need
            };
            let ghost prev = result@;
            result.extend_from_slice(&seg.data[local..local + take_n]);
            proof {
                assert(local as int + take_n <= seg.data@.len());
                assert(self.seg_start(i as int) + seg.data@.len() <= self.contents().len());
                assert(cur as int + take_n <= self.contents().len());
                let lhs = seg.data@.subrange(local as int, local as int + take_n);
                let rhs = self.contents().subrange(cur as int, cur as int + take_n);
                assert forall|j: int| 0 <= j < take_n implies #[trigger] lhs[j] == rhs[j] by {
                    assert(lhs[j] == seg.data@[local as int + j]);
                    assert(rhs[j] == self.contents()[cur as int + j]);
                    lemma_concat_index(self.seg_views(), i as int, local as int + j);
                    assert(self.contents()[self.seg_start(i as int) + (local as int + j)]
                        == seg.data@[local as int + j]);
                }
                assert(lhs =~= rhs);
                assert(result@ =~= self.contents().subrange(
                    start as int,
                    cur as int + take_n,
                )) by {
                    assert(result@ == prev + seg.data@.subrange(
                        local as int,
                        local as int + take_n,
                    ));
                }
            }
            cur = cur + (take_n as u64);
            if take_n == avail {
                i = i + 1;
                proof {
                    if i < n {
                        lemma_concat_take_step(self.seg_views(), i as int);
                    }
                }
            }
        }
        proof {
            if i < n {
                lemma_concat_take_step(self.seg_views(), i as int);
                lemma_concat_take_le(self.seg_views(), i as int + 1, n as int);
                lemma_concat_take_all(self.seg_views());
                assert(cur as int <= self.contents().len());
            }
            if result@.len() < count {
                assert(i == n);
                assert(cur as int == self.contents().len());
            }
        }
        result
    }

    /// Reads up to `count` bytes at the cursor; the cursor does not move.
    pub fn read(&self, count: usize) -> (data: Vec<u8>)
        requires
            self.inv(),
        ensures
            ({
                let len = self.contents().len() as int;
                let lo = if self.pos() as int <= len {
                    self.pos() as int
                } else {
                    len
                };
                let hi = if self.pos() as int + count <= len {
                    self.pos() as int + count
                } else {
                    len
                };
                let hi2 = if lo <= hi {
                    hi
                } else {
                    lo
                };
                data@ == self.contents().subrange(lo, hi2)
            }),
    {
        self.read_at(self.position, count)
    }

    /// Moves the cursor; a target before the stream start is rejected, and so
    /// is one past the 64-bit address space.
    pub fn seek(&mut self, origin: SeekOrigin) -> (r: Result<u64, StorageError>)
        requires
            old(self).inv(),
        ensures
            final(self).inv(),
            final(self).contents() == old(self).contents(),
            final(self).seg_views() == old(self).seg_views(),
            final(self).max_size() == old(self).max_size(),
            ({
                let target: int = match origin {
                    SeekOrigin::Start(p) => p as int,
                    SeekOrigin::Current(d) => old(self).pos() + d,
                    SeekOrigin::End(d) => old(self).contents().len() + d,
                };
                if 0 <= target <= u64::MAX {
                    r == Ok::<u64, StorageError>(target as u64) && final(self).pos() == target
                } else {
                    r == Err::<u64, StorageError>(StorageError::InvalidInput) && final(self).pos()
                        == old(self).pos()
                }
            }),
    {
        match origin {
            SeekOrigin::Start(p) => {
                self.position = p;
                Ok(p)
            },
            SeekOrigin::Current(d) => {
                let target: i128 = (self.position as i128) + (d as i128);
                if target < 0 || target > (u64::MAX as i128) {
                    Err(StorageError::InvalidInput)
                } else {
                    let p = target as u64;
                    self.position = p;
                    Ok(p)
                }
            },
            SeekOrigin::End(d) => {
                let total = self.total_len();
                let target: i128 = (total as i128) + (d as i128);
                if target < 0 || target > (u64::MAX as i128) {
                    Err(StorageError::InvalidInput)
                } else {
                    let p = target as u64;
                    self.position = p;
                    Ok(p)
                }
            },
        }
    }

    /// Durable flushing is the concern of the storage that mirrors these
    /// buffers; the in-memory stream itself has nothing to flush.
    pub fn flush(&mut self)
        ensures
            *final(self) == *old(self),
    {
    }
}

} // verus!
