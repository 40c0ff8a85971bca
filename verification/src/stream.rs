//! The collaborators of the codec: a buffered byte source, a byte sink, and a
//! sink that can repeat its own tail.

use crate::lemmas::{lemma_self_copy_add, lemma_self_copy_block, lemma_self_copy_len};
use crate::wire::self_copy;
use vstd::prelude::*;

verus! {

/// `std::io::Error`: the error of a source or a sink. The codec hands such a
/// value on and never looks into it.
#[verifier::external_type_specification]
#[verifier::external_body]
pub struct ExIoError(std::io::Error);

/// A buffered source of bytes whose total length is known up front.
pub trait SnappyRead {
    /// The bytes that have not been consumed yet, in order.
    spec fn remaining(&self) -> Seq<u8>;

    /// How many bytes `consume` may take after the last `fill_buf`.
    spec fn buffered(&self) -> nat;

    /// Whether no call on this source ever reports an I/O error.
    spec fn reliable(&self) -> bool;

    /// Whether `fill_buf` hands out everything that remains in one buffer.
    spec fn contiguous(&self) -> bool;

    /// The total number of bytes left to be read.
    fn available(&self) -> (r: Result<u64, std::io::Error>)
        ensures
            r matches Ok(n) ==> n == self.remaining().len(),
            self.reliable() && self.remaining().len() <= u64::MAX ==> r is Ok,
    ;

    /// The bytes at the front of the source that are in memory; empty exactly
    /// at the end of the source.
    fn fill_buf(&mut self) -> (r: Result<&[u8], std::io::Error>)
        ensures
            final(self).remaining() == old(self).remaining(),
            final(self).reliable() == old(self).reliable(),
            old(self).contiguous() ==> final(self).contiguous(),
            old(self).reliable() ==> r is Ok,
            r matches Ok(buf) ==> {
                &&& buf@.len() <= old(self).remaining().len()
                &&& buf@ == old(self).remaining().take(buf@.len() as int)
                &&& buf@.len() == 0 <==> old(self).remaining().len() == 0
                &&& buf@.len() == final(self).buffered()
                &&& old(self).contiguous() ==> buf@.len() == old(self).remaining().len()
            },
    ;

    /// Drops the first `amt` bytes, which the last `fill_buf` handed out.
    fn consume(&mut self, amt: usize)
        requires
            amt <= old(self).buffered(),
            amt <= old(self).remaining().len(),
        ensures
            final(self).remaining() == old(self).remaining().skip(amt as int),
            final(self).reliable() == old(self).reliable(),
            old(self).contiguous() ==> final(self).contiguous(),
    ;
}

/// A source over a byte slice that hands out at most `window` bytes at a
/// time.
pub struct SliceReader<'a> {
    rest: &'a [u8],
    window: usize,
}

impl<'a> SliceReader<'a> {
    #[verifier::type_invariant]
    spec fn inv(&self) -> bool {
        self.window >= 1
    }

    /// A source that hands out all of `data` in one buffer.
    pub fn new(data: &'a [u8]) -> (r: Self)
        ensures
            r.remaining() == data@,
            r.contiguous(),
            r.reliable(),
    {
        assert(data@.len() == data.len());
        SliceReader { rest: data, window: usize::MAX }
    }

    /// A source over `data` whose buffers hold at most `window` bytes (at
    /// least one).
    pub fn with_window(data: &'a [u8], window: usize) -> (r: Self)
        ensures
            r.remaining() == data@,
            r.contiguous() <==> data@.len() <= window || data@.len() <= 1,
            r.reliable(),
    {
        SliceReader { rest: data, window: if window == 0 { 1 } else { window } }
    }
}

impl<'a> SnappyRead for SliceReader<'a> {
    closed spec fn remaining(&self) -> Seq<u8> {
        self.rest@
    }

    closed spec fn buffered(&self) -> nat {
        if self.rest@.len() <= self.window {
            self.rest@.len()
        } else {
            self.window as nat
        }
    }

    open spec fn reliable(&self) -> bool {
        true
    }

    closed spec fn contiguous(&self) -> bool {
        self.rest@.len() <= self.window
    }

    fn available(&self) -> (r: Result<u64, std::io::Error>) {
        Ok(self.rest.len() as u64)
    }

    fn fill_buf(&mut self) -> (r: Result<&[u8], std::io::Error>) {
        proof {
            use_type_invariant(&*self);
        }
        let n = if self.rest.len() <= self.window {
            self.rest.len()
        } else {
            self.window
        };
        Ok(&self.rest[0..n])
    }

    fn consume(&mut self, amt: usize) {
        proof {
            use_type_invariant(&*self);
        }
        let rest = self.rest;
        self.rest = &rest[amt..rest.len()];
    }
}

/// A sink that bytes are appended to.
pub trait ByteSink {
    /// Everything that the sink holds, in the order in which it was written.
    spec fn written(&self) -> Seq<u8>;

    /// Whether no call on this sink ever reports an I/O error.
    spec fn dependable(&self) -> bool;

    /// Appends all of `buf`.
    fn write_all(&mut self, buf: &[u8]) -> (r: Result<(), std::io::Error>)
        ensures
            final(self).dependable() == old(self).dependable(),
            old(self).dependable() ==> r is Ok,
            r is Ok ==> final(self).written() == old(self).written() + buf@,
    ;
}

/// A sink that can also repeat bytes that it already holds.
pub trait SnappyWrite: ByteSink {
    /// Appends `len` bytes, each the byte `offset` places before it, taken
    /// while they are appended.
    fn write_from_self(&mut self, offset: u32, len: u8) -> (r: Result<(), std::io::Error>)
        requires
            1 <= offset <= old(self).written().len(),
        ensures
            final(self).dependable() == old(self).dependable(),
            old(self).dependable() ==> r is Ok,
            r is Ok ==> final(self).written() == self_copy(
                old(self).written(),
                offset as nat,
                len as nat,
            ),
    ;

    /// Tells the sink how many bytes the stream announces, so that it can
    /// make room. The sink's contents stay as they are.
    fn set_uncompressed_length(&mut self, length: u32)
        ensures
            final(self).written() == old(self).written(),
            final(self).dependable() == old(self).dependable(),
    ;
}

/// The most bytes that a vector makes room for on the word of a stream's
/// length prefix, which anyone may have written.
pub const MAX_RESERVE: usize = 0x400_0000;

/// `Vec::extend_from_within` on the range from `start` to `end`: appends a
/// copy of the elements that the vector holds in that range.
#[verifier::external_body]
fn extend_from_within(v: &mut Vec<u8>, start: usize, end: usize)
    requires
        start <= end <= old(v)@.len(),
    ensures
        final(v)@ == old(v)@ + old(v)@.subrange(start as int, end as int),
{
    v.extend_from_within(start..end);
}

/// `Vec::capacity`: how many bytes the vector can hold without allocating
/// again. It is never less than the length; beyond that the allocator
/// decides.
#[verifier::external_body]
fn capacity(v: &Vec<u8>) -> (n: usize)
    ensures
        n >= v@.len(),
{
    v.capacity()
}

impl ByteSink for Vec<u8> {
    open spec fn written(&self) -> Seq<u8> {
        self@
    }

    open spec fn dependable(&self) -> bool {
        true
    }

    fn write_all(&mut self, buf: &[u8]) -> (r: Result<(), std::io::Error>) {
        self.extend_from_slice(buf);
        assert(self@ =~= old(self)@ + buf@);
        Ok(())
    }
}

impl SnappyWrite for Vec<u8> {
    fn write_from_self(&mut self, offset: u32, len: u8) -> (r: Result<(), std::io::Error>) {
        let start = self.len() - offset as usize;
        let space_left = capacity(self) - self.len();
        if len <= 16 && offset >= 8 && space_left >= 16 {
            // Two block copies of at most eight bytes: with the source eight
            // or more bytes back, neither block reaches into itself, and
            // with room for 16 bytes neither makes the vector allocate.
            let first: usize = if len <= 8 { len as usize } else { 8 };
            proof {
                lemma_self_copy_block(self@, offset as nat, first as nat);
            }
            extend_from_within(self, start, start + first);
            if len > 8 {
                proof {
                    lemma_self_copy_block(self@, offset as nat, (len - 8) as nat);
                    lemma_self_copy_add(old(self)@, offset as nat, 8, (len - 8) as nat);
                    lemma_self_copy_len(old(self)@, offset as nat, 8);
                }
                let end = self.len() - (offset as usize + 8 - len as usize);
                extend_from_within(self, start + 8, end);
            }
        } else {
            let mut i: usize = 0;
            while i < len as usize
                invariant
                    i <= len,
                    start + offset == old(self)@.len(),
                    offset >= 1,
                    self@.len() == old(self)@.len() + i,
                    self_copy(self@, offset as nat, (len - i) as nat) == self_copy(
                        old(self)@,
                        offset as nat,
                        len as nat,
                    ),
                decreases len - i,
            {
                let c = self[self.len() - offset as usize];
                self.push(c);
                i += 1;
            }
        }
        Ok(())
    }

    fn set_uncompressed_length(&mut self, length: u32) {
        let want = reservation(length, MAX_RESERVE);
        let _ = self.try_reserve(want);
    }
}

/// `std::io::Error::from` on `ErrorKind::WriteZero`: the error of a writer
/// that can take no more.
#[verifier::external_body]
fn write_zero() -> std::io::Error {
    std::io::Error::from(std::io::ErrorKind::WriteZero)
}

/// A sink with room for a fixed number of bytes. A write that would go
/// beyond it is refused with an error and leaves the sink as it was.
pub struct LimitedSink {
    data: Vec<u8>,
    limit: usize,
}

impl LimitedSink {
    /// The number of bytes that the sink has room for.
    pub closed spec fn limit(&self) -> nat {
        self.limit as nat
    }

    /// An empty sink with room for `limit` bytes.
    pub fn new(limit: usize) -> (s: LimitedSink)
        ensures
            s.written() == Seq::<u8>::empty(),
            s.limit() == limit,
    {
        LimitedSink { data: Vec::new(), limit }
    }

    /// What the sink holds.
    pub fn as_slice(&self) -> (r: &[u8])
        ensures
            r@ == self.written(),
    {
        self.data.as_slice()
    }

    /// Whether `more` bytes still fit.
    fn fits(&self, more: usize) -> (r: bool)
        ensures
            r <==> self.written().len() + more <= self.limit(),
    {
        self.data.len() <= self.limit && more <= self.limit - self.data.len()
    }
}

impl ByteSink for LimitedSink {
    closed spec fn written(&self) -> Seq<u8> {
        self.data@
    }

    open spec fn dependable(&self) -> bool {
        false
    }

    fn write_all(&mut self, buf: &[u8]) -> (r: Result<(), std::io::Error>)
        ensures
            final(self).limit() == old(self).limit(),
            r is Ok <==> old(self).written().len() + buf@.len() <= old(self).limit(),
            r is Err ==> final(self).written() == old(self).written(),
    {
        if self.fits(buf.len()) {
            self.data.extend_from_slice(buf);
            assert(self.data@ =~= old(self).data@ + buf@);
            Ok(())
        } else {
            Err(write_zero())
        }
    }
}

impl SnappyWrite for LimitedSink {
    fn write_from_self(&mut self, offset: u32, len: u8) -> (r: Result<(), std::io::Error>)
        ensures
            final(self).limit() == old(self).limit(),
            r is Ok <==> old(self).written().len() + len <= old(self).limit(),
            r is Err ==> final(self).written() == old(self).written(),
    {
        if self.fits(len as usize) {
            self.data.write_from_self(offset, len)
        } else {
            Err(write_zero())
        }
    }

    fn set_uncompressed_length(&mut self, length: u32)
        ensures
            final(self).limit() == old(self).limit(),
    {
        let want = reservation(length, self.limit);
        self.data.set_uncompressed_length(want as u32);
    }
}

/// How many bytes a sink asks room for when a stream announces `length`
/// bytes: as many, but no more than `most`.
pub fn reservation(length: u32, most: usize) -> (want: usize)
    ensures
        want == (if length <= most {
            length as usize
        } else {
            most
        }),
{
    if length as usize <= most {
        length as usize
    } else {
        most
    }
}

} // verus!
