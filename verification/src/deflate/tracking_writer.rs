use vstd::prelude::*;

use crate::trusted::{crc32_checksum, crc32_of};
use crate::{Error, ErrorKind};

verus! {

/// The size of the sliding window: back-references reach at most this far.
pub const HISTORY_SIZE: usize = 32768;

/// The output `s` extended by a back-reference of length `len` at distance
/// `dist`: each new byte is the byte `dist` positions before it, as observed
/// after each prior write, so the copy is self-referential when `len > dist`.
pub open spec fn expand_back_reference(s: Seq<u8>, dist: int, len: nat) -> Seq<u8>
    decreases len,
{
    if len == 0 {
        s
    } else {
        let p = expand_back_reference(s, dist, (len - 1) as nat);
        p.push(p[p.len() - dist])
    }
}

pub proof fn lemma_expand_back_reference_len(s: Seq<u8>, dist: int, len: nat)
    ensures
        expand_back_reference(s, dist, len).len() == s.len() + len,
    decreases len,
{
    if len > 0 {
        lemma_expand_back_reference_len(s, dist, (len - 1) as nat);
    }
}


/// `a` is the unchanged front of `b`.
pub open spec fn is_prefix_of(a: Seq<u8>, b: Seq<u8>) -> bool {
    a.len() <= b.len() && forall|i: int| 0 <= i < a.len() ==> a[i] == #[trigger] b[i]
}

pub proof fn lemma_prefix_trans(a: Seq<u8>, b: Seq<u8>, c: Seq<u8>)
    requires
        is_prefix_of(a, b),
        is_prefix_of(b, c),
    ensures
        is_prefix_of(a, c),
{
    assert forall|i: int| 0 <= i < a.len() implies a[i] == #[trigger] c[i] by {
        assert(a[i] == b[i]);
    }
}

/// A back-reference expansion only appends: the old output stays in front.
pub proof fn lemma_expand_back_reference_prefix(s: Seq<u8>, dist: int, len: nat)
    ensures
        is_prefix_of(s, expand_back_reference(s, dist, len)),
    decreases len,
{
    lemma_expand_back_reference_len(s, dist, len);
    if len > 0 {
        lemma_expand_back_reference_prefix(s, dist, (len - 1) as nat);
        let p = expand_back_reference(s, dist, (len - 1) as nat);
        lemma_expand_back_reference_len(s, dist, (len - 1) as nat);
        assert(expand_back_reference(s, dist, len) == p.push(p[p.len() - dist]));
        lemma_prefix_trans(s, p, expand_back_reference(s, dist, len));
    }
}

/// Appending keeps the old output in front.
pub proof fn lemma_append_prefix(a: Seq<u8>, b: Seq<u8>)
    ensures
        is_prefix_of(a, a + b),
{
}

/// Collects the decoded output and keeps the bookkeeping the gzip trailer is
/// checked against: the sliding-window extent and the per-member range over
/// which the CRC-32 and the byte count are taken.
///
/// The real output sink is outside the library; it is modelled by `limit`,
/// the number of bytes the sink accepts (no bound in ordinary use).
pub struct TrackingWriter {
    pub out: Vec<u8>,
    pub limit: usize,
    pub window_start: usize,
    pub member_start: usize,
}

impl TrackingWriter {
    pub open spec fn wf(self) -> bool {
        &&& self.out.len() <= self.limit
        &&& self.window_start <= self.out.len()
        &&& self.member_start <= self.out.len()
    }

    /// Everything accepted by the sink so far.
    pub open spec fn spec_written(self) -> Seq<u8> {
        self.out@
    }

    /// The bytes of the current member, which the trailer check covers.
    pub open spec fn member_bytes(self) -> Seq<u8> {
        self.out@.skip(self.member_start as int)
    }

    /// How far back a back-reference may reach: the window fill, saturating
    /// at the window size.
    pub open spec fn filled(self) -> int {
        if self.out.len() - self.window_start >= HISTORY_SIZE {
            HISTORY_SIZE as int
        } else {
            self.out.len() - self.window_start
        }
    }

    pub fn new() -> (r: TrackingWriter)
        ensures
            r.wf(),
            r.spec_written() == Seq::<u8>::empty(),
            r.limit == usize::MAX,
            r.window_start == 0,
            r.member_start == 0,
    {
        let r = TrackingWriter { out: Vec::new(), limit: usize::MAX, window_start: 0, member_start: 0 };
        proof {
            assert(r.out@ =~= Seq::<u8>::empty());
        }
        r
    }

    /// A writer over a sink that accepts only `limit` bytes in all.
    pub fn with_limit(limit: usize) -> (r: TrackingWriter)
        ensures
            r.wf(),
            r.spec_written() == Seq::<u8>::empty(),
            r.limit == limit,
            r.window_start == 0,
            r.member_start == 0,
    {
        let r = TrackingWriter { out: Vec::new(), limit, window_start: 0, member_start: 0 };
        proof {
            assert(r.out@ =~= Seq::<u8>::empty());
        }
        r
    }

    /// Writes one literal byte; fails only when the sink is full.
    pub fn write_u8(&mut self, b: u8) -> (r: Result<(), Error>)
        requires
            old(self).wf(),
        ensures
            final(self).wf(),
            final(self).limit == old(self).limit,
            final(self).window_start == old(self).window_start,
            final(self).member_start == old(self).member_start,
            match r {
                Ok(()) => old(self).out.len() < old(self).limit && final(self).spec_written()
                    == old(self).spec_written().push(b),
                Err(e) => e == Error::Io(ErrorKind::SinkFull) && old(self).out.len() == old(
                    self,
                ).limit && *final(self) == *old(self),
            },
    {
        if self.out.len() < self.limit {
            self.out.push(b);
            Ok(())
        } else {
            Err(Error::Io(ErrorKind::SinkFull))
        }
    }

    /// Writes as much of `buf` as the sink accepts and reports how much.
    pub fn write(&mut self, buf: &[u8]) -> (r: usize)
        requires
            old(self).wf(),
        ensures
            final(self).wf(),
            final(self).limit == old(self).limit,
            final(self).window_start == old(self).window_start,
            final(self).member_start == old(self).member_start,
            r == if buf@.len() <= old(self).limit - old(self).out.len() {
                buf@.len() as int
            } else {
                old(self).limit - old(self).out.len()
            },
            final(self).spec_written() == old(self).spec_written() + buf@.take(r as int),
    {
        let mut i: usize = 0;
        let room = self.limit - self.out.len();
        let n: usize = if buf.len() <= room {
            buf.len()
        } else {
            room
        };
        while i < n
            invariant
                self.wf(),
                i <= n,
                n <= buf@.len(),
                n == if buf@.len() <= old(self).limit - old(self).out.len() {
                    buf@.len() as int
                } else {
                    old(self).limit - old(self).out.len()
                },
                self.limit == old(self).limit,
                self.window_start == old(self).window_start,
                self.member_start == old(self).member_start,
                self.out@ == old(self).out@ + buf@.take(i as int),
                self.out.len() == old(self).out.len() + i,
            decreases n - i,
        {
            let b = buf[i];
            self.out.push(b);
            i = i + 1;
            proof {
                assert(self.out@ =~= old(self).out@ + buf@.take(i as int));
            }
        }
        proof {
            assert(self.out@ =~= old(self).out@ + buf@.take(n as int));
        }
        n
    }

    /// Emits `len` bytes copied from `dist` bytes back in the window,
    /// self-referentially when `len > dist`. The distance must be at least 1
    /// and at most the window fill; a sink that fills up mid-copy keeps what
    /// it accepted and the call reports the failure.
    pub fn write_previous(&mut self, dist: usize, len: usize) -> (r: Result<(), Error>)
        requires
            old(self).wf(),
        ensures
            final(self).wf(),
            final(self).limit == old(self).limit,
            final(self).window_start == old(self).window_start,
            final(self).member_start == old(self).member_start,
            match r {
                Ok(()) => {
                    &&& 1 <= dist <= old(self).filled()
                    &&& len <= old(self).limit - old(self).out.len()
                    &&& final(self).spec_written() == expand_back_reference(
                        old(self).spec_written(),
                        dist as int,
                        len as nat,
                    )
                },
                Err(e) => {
                    &&& (e == Error::InvalidData(ErrorKind::DistanceTooFarBack) || e == Error::Io(
                        ErrorKind::SinkFull,
                    ))
                    &&& (e == Error::InvalidData(ErrorKind::DistanceTooFarBack) <==> !(1 <= dist
                        <= old(self).filled()))
                    &&& (e == Error::InvalidData(ErrorKind::DistanceTooFarBack) ==> *final(self)
                        == *old(self))
                    &&& (e == Error::Io(ErrorKind::SinkFull) ==> len > old(self).limit - old(
                        self,
                    ).out.len() && final(self).spec_written() == expand_back_reference(
                        old(self).spec_written(),
                        dist as int,
                        (old(self).limit - old(self).out.len()) as nat,
                    ))
                },
            },
    {
        let filled: usize = if self.out.len() - self.window_start >= HISTORY_SIZE {
            HISTORY_SIZE
        } else {
            self.out.len() - self.window_start
        };
        if dist == 0 || dist > filled {
            return Err(Error::InvalidData(ErrorKind::DistanceTooFarBack));
        }
        let room = self.limit - self.out.len();
        let n: usize = if len <= room {
            len
        } else {
            room
        };
        let mut i: usize = 0;
        while i < n
            invariant
                self.wf(),
                i <= n,
                1 <= dist <= old(self).filled(),
                dist <= old(self).out.len(),
                n == if len <= old(self).limit - old(self).out.len() {
                    len as int
                } else {
                    old(self).limit - old(self).out.len()
                },
                self.limit == old(self).limit,
                self.window_start == old(self).window_start,
                self.member_start == old(self).member_start,
                self.out.len() == old(self).out.len() + i,
                self.out@ == expand_back_reference(old(self).out@, dist as int, i as nat),
            decreases n - i,
        {
            let b = self.out[self.out.len() - dist];
            self.out.push(b);
            i = i + 1;
            proof {
                lemma_expand_back_reference_len(old(self).out@, dist as int, i as nat);
                assert(self.out@ =~= expand_back_reference(
                    old(self).out@,
                    dist as int,
                    i as nat,
                ));
            }
        }
        if n == len {
            Ok(())
        } else {
            Err(Error::Io(ErrorKind::SinkFull))
        }
    }

    /// The byte count of the current member, for the ISIZE trailer check.
    pub fn byte_count(&self) -> (r: usize)
        requires
            self.wf(),
        ensures
            r == self.member_bytes().len(),
    {
        self.out.len() - self.member_start
    }

    /// The CRC-32 of the current member's bytes, for the trailer check.
    pub fn crc32(&self) -> (r: u32)
        requires
            self.wf(),
        ensures
            r == crc32_of(self.member_bytes()),
    {
        let s = vstd::slice::slice_subrange(self.out.as_slice(), self.member_start, self.out.len());
        proof {
            assert(s@ =~= self.member_bytes());
        }
        crc32_checksum(s)
    }

    /// Forgets the window, so that no later back-reference reaches bytes
    /// written before this point; the member accounting is untouched.
    pub fn reset_window(&mut self)
        requires
            old(self).wf(),
        ensures
            final(self).wf(),
            final(self).out == old(self).out,
            final(self).limit == old(self).limit,
            final(self).member_start == old(self).member_start,
            final(self).window_start == old(self).out.len(),
    {
        self.window_start = self.out.len();
    }

    /// Starts a fresh member: clears the window and restarts the per-member
    /// CRC-32 and byte count at zero.
    pub fn start_member(&mut self)
        requires
            old(self).wf(),
        ensures
            final(self).wf(),
            final(self).out == old(self).out,
            final(self).limit == old(self).limit,
            final(self).member_start == old(self).out.len(),
            final(self).window_start == old(self).out.len(),
    {
        self.window_start = self.out.len();
        self.member_start = self.out.len();
    }

    /// Hands the collected output out, ending the decode.
    pub fn into_output(self) -> (r: Vec<u8>)
        ensures
            r@ == self.spec_written(),
    {
        self.out
    }
}

} // verus!
