//! The decoder: reads the length prefix, then tags to the end of the
//! source, writing literals and copies to the sink. A tag that straddles two
//! buffers of the source is put together in a scratch area.

use crate::stream::{SnappyRead, SnappyWrite};
use crate::wire::{
    copy_len, copy_offset, decode, decode_from, group_weight, is_literal, le_value, literal_len,
    parse_length, parse_length_from, self_copy, tag_size, Decoded, Fault, Prefix, MAX_TAG_LEN,
};
use vstd::prelude::*;

verus! {

/// Why a decompression failed.
#[derive(Debug)]
pub enum SnappyError {
    /// The stream is malformed. The string says how.
    FormatError(&'static str),
    /// The source or the sink reported an error.
    IoError(std::io::Error),
}

/// The largest offset that a copy can have, and so the most that the
/// decoder needs to know of the number of bytes produced.
pub const MAX_OFFSET: u64 = 0xFFFF_FFFF;

/// Whether `r` is the outcome that the model `d` calls for: success where
/// the model has no fault, else a format error with the fault's message.
pub open spec fn matches_model(r: Result<(), SnappyError>, d: Decoded) -> bool {
    match r {
        Ok(()) => d.fault is None,
        Err(SnappyError::FormatError(m)) => d.fault matches Some(f) && m == f.message(),
        Err(SnappyError::IoError(_)) => false,
    }
}

/// Reads the length prefix of a stream, across buffers of the source if it
/// has to, and consumes it.
#[verifier::loop_isolation(false)]
pub fn read_uncompressed_length<R: SnappyRead>(reader: &mut R) -> (r: Result<u32, SnappyError>)
    ensures
        final(reader).reliable() == old(reader).reliable(),
        r matches Ok(n) ==> parse_length(old(reader).remaining()) matches Ok(p) && p.value == n
            && final(reader).remaining() == old(reader).remaining().skip(p.size as int),
        r matches Err(SnappyError::FormatError(m)) ==> parse_length(
            old(reader).remaining(),
        ) matches Err(f) && m == f.message(),
        r matches Err(SnappyError::IoError(_)) ==> !old(reader).reliable(),
{
    let ghost s = reader.remaining();
    let mut result: u64 = 0;
    let mut weight: u64 = 1;
    let mut read: usize = 0;
    proof {
        assert(s.skip(0) =~= s);
    }
    loop
        invariant
            read <= 5,
            read <= s.len(),
            weight == group_weight(read as nat) || read == 5,
            result <= u32::MAX,
            reader.remaining() == s.skip(read as int),
            reader.reliable() == old(reader).reliable(),
            parse_length_from(s, read as nat, result as nat) == parse_length(s),
        decreases s.len() - read,
    {
        let buf = match reader.fill_buf() {
            Err(e) => {
                return Err(SnappyError::IoError(e));
            },
            Ok(b) => b,
        };
        let len = buf.len();
        if len == 0 {
            if read == 0 {
                return Err(SnappyError::FormatError("premature EOF"));
            } else {
                return Err(SnappyError::FormatError("unterminated uncompressed length"));
            }
        }
        let ghost start = read;
        let mut k: usize = 0;
        let mut done = false;
        while k < len && !done
            invariant
                k <= len,
                read == start + k,
                read <= 5,
                start + len <= s.len(),
                buf@ == s.skip(start as int).take(len as int),
                done || weight == group_weight(read as nat) || read == 5,
                result <= u32::MAX,
                !done ==> parse_length_from(s, read as nat, result as nat) == parse_length(s),
                done ==> k >= 1 && parse_length(s) == Ok::<Prefix, Fault>(
                    Prefix { value: result as nat, size: read as nat },
                ),
            decreases len - k,
        {
            let c = buf[k];
            assert(c == s[read as int]);
            if read >= 5 {
                return Err(SnappyError::FormatError("uncompressed length exceeds u32::MAX"));
            }
            let low = (c % 128) as u64;
            assert(low * weight <= 127 * 0x1000_0000) by (nonlinear_arith)
                requires
                    low <= 127,
                    weight <= 0x1000_0000,
            ;
            let v = result + low * weight;
            if v > 0xFFFF_FFFF {
                return Err(SnappyError::FormatError("uncompressed length exceeds u32::MAX"));
            }
            result = v;
            if c < 128 {
                done = true;
            } else if read < 4 {
                weight = weight * 128;
            }
            read += 1;
            k += 1;
        }
        reader.consume(k);
        proof {
            assert(s.skip(start as int).skip(k as int) =~= s.skip(read as int));
        }
        if done {
            return Ok(result as u32);
        }
    }
}

/// What a tag says.
pub enum Tag {
    /// `size` bytes follow verbatim.
    Literal { size: u64 },
    /// `len` bytes are repeated from `offset` bytes back.
    Copy { len: u8, offset: u32 },
}

/// What the bytes of a whole tag say.
pub open spec fn tag_of(bytes: Seq<u8>) -> Tag {
    if is_literal(bytes[0]) {
        Tag::Literal { size: literal_len(bytes) as u64 }
    } else {
        Tag::Copy { len: copy_len(bytes) as u8, offset: copy_offset(bytes) as u32 }
    }
}

/// The number of bytes of the tag that starts with `c`.
pub fn get_tag_size(c: u8) -> (n: usize)
    ensures
        n == tag_size(c),
        1 <= n <= MAX_TAG_LEN,
{
    if c % 4 == 0 {
        if c / 4 < 60 {
            1
        } else {
            (c / 4 - 58) as usize
        }
    } else if c % 4 == 1 {
        2
    } else if c % 4 == 2 {
        3
    } else {
        5
    }
}

/// Reads the first `n` bytes of `bytes` as a little-endian integer.
pub fn read_u32_le(bytes: &[u8], n: u8) -> (r: u32)
    requires
        n <= 4,
        n <= bytes@.len(),
    ensures
        r == le_value(bytes@.take(n as int)),
{
    let mut r: u32 = 0;
    if n >= 1 {
        r = bytes[0] as u32;
    }
    if n >= 2 {
        r = r + bytes[1] as u32 * 0x100;
    }
    if n >= 3 {
        r = r + bytes[2] as u32 * 0x1_0000;
    }
    if n >= 4 {
        r = r + bytes[3] as u32 * 0x100_0000;
    }
    r
}

/// Reads the first two bytes of `bytes` as a little-endian integer.
pub fn read_u16_le(bytes: &[u8]) -> (r: u16)
    requires
        2 <= bytes@.len(),
    ensures
        r == le_value(bytes@.take(2)),
{
    bytes[0] as u16 + bytes[1] as u16 * 0x100
}

/// Reads what a whole tag says.
pub fn parse_tag(bytes: &[u8]) -> (t: Tag)
    requires
        1 <= bytes@.len(),
        bytes@.len() == tag_size(bytes@[0]),
    ensures
        t == tag_of(bytes@),
        t matches Tag::Literal { size } ==> 1 <= size <= 0x1_0000_0000 && size == literal_len(bytes@),
        t matches Tag::Copy { len, offset } ==> 1 <= len <= 64 && len == copy_len(bytes@) && offset
            == copy_offset(bytes@),
{
    let c = bytes[0];
    let size = bytes.len();
    if c % 4 == 0 {
        if size == 1 {
            Tag::Literal { size: (c / 4) as u64 + 1 }
        } else {
            let rest = &bytes[1..size];
            let v = read_u32_le(rest, (size - 1) as u8);
            proof {
                assert(rest@.take(size - 1) =~= bytes@.skip(1));
            }
            Tag::Literal { size: v as u64 + 1 }
        }
    } else if c % 4 == 1 {
        Tag::Copy { len: 4 + (c / 4) % 8, offset: (c / 32) as u32 * 256 + bytes[1] as u32 }
    } else if c % 4 == 2 {
        let rest = &bytes[1..size];
        let v = read_u16_le(rest);
        proof {
            assert(rest@.take(2) =~= bytes@.skip(1));
        }
        Tag::Copy { len: 1 + c / 4, offset: v as u32 }
    } else {
        let rest = &bytes[1..size];
        let v = read_u32_le(rest, 4);
        proof {
            assert(rest@.take(4) =~= bytes@.skip(1));
        }
        Tag::Copy { len: 1 + c / 4, offset: v }
    }
}

/// Inside a literal, the bytes at hand belong to it: taking `chunk` of them
/// leaves the rest of the literal to come.
pub proof fn lemma_literal_chunk(out: Seq<u8>, left: nat, chunk: Seq<u8>, rest: Seq<u8>)
    requires
        1 <= chunk.len() <= left,
    ensures
        decode_from(out, left, chunk + rest) == decode_from(
            out + chunk,
            (left - chunk.len()) as nat,
            rest,
        ),
{
    let s = chunk + rest;
    let more = (left - chunk.len()) as nat;
    if s.len() < left {
        assert(out + s =~= (out + chunk) + rest);
    } else {
        assert(out + s.take(left as int) =~= (out + chunk) + rest.take(more as int));
        assert(s.skip(left as int) =~= rest.skip(more as int));
        if more == 0 {
            assert(rest.take(0) =~= Seq::<u8>::empty());
            assert((out + chunk) + rest.take(0) =~= out + chunk);
            assert(rest.skip(0) =~= rest);
        }
    }
}

/// A whole tag at the front of `stream` is the tag at the front of `stream`
/// with anything after it.
pub proof fn lemma_tag_front(stream: Seq<u8>, after: Seq<u8>, n: int)
    requires
        1 <= n <= stream.len(),
    ensures
        (stream + after)[0] == stream[0],
        (stream + after).take(n) == stream.take(n),
        (stream + after).skip(n) == stream.skip(n) + after,
{
    assert((stream + after).take(n) =~= stream.take(n));
    assert((stream + after).skip(n) =~= stream.skip(n) + after);
}

/// The state of a decompression between two buffers of the source.
struct Decompressor {
    /// The bytes of a tag that straddles two buffers.
    tmp: [u8; MAX_TAG_LEN],
    /// How many bytes of an unfinished tag `tmp` holds.
    tmp_len: usize,
    /// How many bytes of the current literal are still to come.
    literal_left: u64,
    /// How many bytes were produced, as far as offsets can reach.
    produced: u64,
    /// The bytes produced.
    output: Ghost<Seq<u8>>,
    /// What the sink held before the first byte was produced.
    base: Ghost<Seq<u8>>,
}

impl Decompressor {
    /// The scratch holds less than a whole tag, and nothing inside a
    /// literal; the count of bytes produced is right.
    spec fn wf(&self) -> bool {
        &&& self.tmp_len < MAX_TAG_LEN
        &&& self.tmp_len > 0 ==> self.literal_left == 0 && self.tmp_len < tag_size(self.tmp@[0])
        &&& self.literal_left <= 0x1_0000_0000
        &&& self.produced == if self.output@.len() <= MAX_OFFSET {
            self.output@.len()
        } else {
            MAX_OFFSET as nat
        }
    }

    /// The bytes of an unfinished tag.
    spec fn pending(&self) -> Seq<u8> {
        self.tmp@.take(self.tmp_len as int)
    }

    /// What the decoder will have produced, and how it will have ended, if
    /// `unread` is all that the source still holds.
    #[verifier::opaque]
    spec fn continuation(&self, unread: Seq<u8>) -> Decoded {
        decode_from(self.output@, self.literal_left as nat, self.pending() + unread)
    }

    /// Whether `sink` is what a sink holds that has taken all the output.
    spec fn tracks(&self, sink: Seq<u8>) -> bool {
        sink == self.base@ + self.output@
    }

    /// A decoder that expects a tag and has produced nothing, for a sink
    /// that holds `base`.
    fn new(Ghost(base): Ghost<Seq<u8>>) -> (d: Decompressor)
        ensures
            d.wf(),
            d.tracks(base),
            d.base@ == base,
            d.output@ == Seq::<u8>::empty(),
            forall|unread: Seq<u8>| #[trigger] d.continuation(unread) == decode_from(Seq::empty(), 0, unread),
    {
        let d = Decompressor {
            tmp: [0, 0, 0, 0, 0],
            tmp_len: 0,
            literal_left: 0,
            produced: 0,
            output: Ghost(Seq::empty()),
            base: Ghost(base),
        };
        proof {
            reveal(Decompressor::continuation);
            assert(base + Seq::<u8>::empty() =~= base);
            assert forall|unread: Seq<u8>| #[trigger] d.continuation(unread) == decode_from(
                Seq::empty(),
                0,
                unread,
            ) by {
                assert(d.pending() + unread =~= unread);
            }
        }
        d
    }

    /// Adds `n` to the count of bytes produced, as far as the count goes.
    fn count(&mut self, n: u64, Ghost(grown): Ghost<Seq<u8>>)
        requires
            old(self).wf(),
            grown.len() == old(self).output@.len() + n,
        ensures
            final(self).wf(),
            final(self).output@ == grown,
            final(self).tmp == old(self).tmp,
            final(self).tmp_len == old(self).tmp_len,
            final(self).literal_left == old(self).literal_left,
            final(self).base == old(self).base,
    {
        self.produced = if n >= MAX_OFFSET - self.produced {
            MAX_OFFSET
        } else {
            self.produced + n
        };
        self.output = Ghost(grown);
    }

    /// Makes the next tag whole. The tag starts in the scratch, if that
    /// holds anything, else at `buf[pos]`. Where all of it lies in the
    /// buffer it is read there. Where it does not, what the buffer has of it
    /// goes to the scratch, and the tag is read there once it is whole.
    /// Returns how many bytes of the buffer belong to the tag, and what the
    /// tag says if it is whole.
    fn advance_tag(&mut self, buf: &[u8], pos: usize) -> (r: (usize, Option<Tag>))
        requires
            old(self).wf(),
            old(self).literal_left == 0,
            pos < buf@.len(),
        ensures
            ({
                let stream = old(self).pending() + buf@.skip(pos as int);
                let n = tag_size(stream[0]);
                &&& 1 <= r.0
                &&& pos + r.0 <= buf@.len()
                &&& final(self).wf()
                &&& final(self).literal_left == 0
                &&& final(self).produced == old(self).produced
                &&& final(self).output == old(self).output
                &&& final(self).base == old(self).base
                &&& match r.1 {
                    Some(t) => {
                        &&& n <= stream.len()
                        &&& old(self).pending().len() + r.0 == n
                        &&& t == tag_of(stream.take(n as int))
                        &&& t matches Tag::Literal { size } ==> 1 <= size <= 0x1_0000_0000 && size
                            == literal_len(stream.take(n as int))
                        &&& t matches Tag::Copy { len, offset } ==> 1 <= len <= 64 && len
                            == copy_len(stream.take(n as int)) && offset == copy_offset(
                            stream.take(n as int),
                        )
                        &&& final(self).pending().len() == 0
                    },
                    None => {
                        &&& pos + r.0 == buf@.len()
                        &&& final(self).pending() == stream
                        &&& stream.len() < n
                    },
                }
            }),
    {
        let ghost stream = self.pending() + buf@.skip(pos as int);
        let avail = buf.len() - pos;
        let tag_size = if self.tmp_len == 0 {
            let size = get_tag_size(buf[pos]);
            if avail >= size {
                // The whole tag lies in the buffer.
                let bytes = &buf[pos..pos + size];
                proof {
                    assert(stream =~= buf@.skip(pos as int));
                    assert(stream.take(size as int) =~= bytes@);
                }
                return (size, Some(parse_tag(bytes)));
            }
            size
        } else {
            get_tag_size(self.tmp[0])
        };
        // The tag straddles two buffers: it is put together in the
        // scratch.
        let missing = tag_size - self.tmp_len;
        let take = if missing < avail { missing } else { avail };
        let held = self.tmp_len;
        let ghost total = buf.len();
        let mut k: usize = 0;
        while k < take
            invariant
                k <= take,
                held + take <= MAX_TAG_LEN,
                pos + take <= buf@.len(),
                total == buf@.len(),
                held == old(self).tmp_len,
                self.tmp_len == held,
                self.literal_left == old(self).literal_left,
                self.produced == old(self).produced,
                self.output == old(self).output,
                self.base == old(self).base,
                forall|j: int| 0 <= j < held ==> self.tmp@[j] == old(self).tmp@[j],
                forall|j: int|
                    held <= j < held + k ==> #[trigger] self.tmp@[j] == buf@[pos + j - held],
            decreases take - k,
        {
            self.tmp[held + k] = buf[pos + k];
            k += 1;
        }
        self.tmp_len = held + take;
        proof {
            assert(self.pending() =~= stream.take(held + take));
            assert(self.tmp@[0] == stream[0]);
        }
        if self.tmp_len == tag_size {
            let bytes = &self.tmp[0..tag_size];
            let tag = parse_tag(bytes);
            self.tmp_len = 0;
            (take, Some(tag))
        } else {
            proof {
                assert(stream.take(held + take) =~= stream);
            }
            (take, None)
        }
    }

    /// Inside a literal: writes the bytes of the literal that `buf` holds
    /// from `pos` on to `writer`. Returns how many they are.
    fn stream_literal<W: SnappyWrite>(
        &mut self,
        buf: &[u8],
        pos: usize,
        writer: &mut W,
        Ghost(after): Ghost<Seq<u8>>,
    ) -> (r: Result<usize, SnappyError>)
        requires
            old(self).wf(),
            old(self).tracks(old(writer).written()),
            old(self).literal_left > 0,
            pos < buf@.len(),
        ensures
            final(writer).dependable() == old(writer).dependable(),
            final(self).base == old(self).base,
            r matches Ok(n) ==> {
                &&& 1 <= n
                &&& pos + n <= buf@.len()
                &&& final(self).wf()
                &&& final(self).tracks(final(writer).written())
                &&& final(self).continuation(buf@.skip(pos + n) + after) == old(self).continuation(
                    buf@.skip(pos as int) + after,
                )
            },
            r matches Err(e) ==> e is IoError && !old(writer).dependable(),
    {
        let room = buf.len() - pos;
        let n = if self.literal_left < room as u64 {
            self.literal_left as usize
        } else {
            room
        };
        let chunk = &buf[pos..pos + n];
        let ghost rest = buf@.skip(pos + n) + after;
        proof {
            reveal(Decompressor::continuation);
            assert(self.pending() =~= Seq::<u8>::empty());
            assert(self.pending() + (buf@.skip(pos as int) + after) =~= chunk@ + rest);
            lemma_literal_chunk(self.output@, self.literal_left as nat, chunk@, rest);
        }
        match writer.write_all(chunk) {
            Err(e) => {
                return Err(SnappyError::IoError(e));
            },
            Ok(()) => {},
        }
        let ghost grown = self.output@ + chunk@;
        proof {
            assert(self.base@ + self.output@ + chunk@ =~= self.base@ + grown);
        }
        self.literal_left = self.literal_left - n as u64;
        self.count(n as u64, Ghost(grown));
        proof {
            assert(self.pending() + rest =~= rest);
        }
        Ok(n)
    }

    /// Between two literals: takes the tag that starts in the scratch, or
    /// at `buf[pos]`, as far as `buf` holds it. A literal tag opens the
    /// literal. A copy tag is carried out on `writer`. Returns how many
    /// bytes of `buf` belong to the tag.
    fn take_tag<W: SnappyWrite>(
        &mut self,
        buf: &[u8],
        pos: usize,
        writer: &mut W,
        Ghost(after): Ghost<Seq<u8>>,
    ) -> (r: Result<usize, SnappyError>)
        requires
            old(self).wf(),
            old(self).tracks(old(writer).written()),
            old(self).literal_left == 0,
            pos < buf@.len(),
        ensures
            final(writer).dependable() == old(writer).dependable(),
            final(self).base == old(self).base,
            ({
                let d = old(self).continuation(buf@.skip(pos as int) + after);
                &&& r matches Ok(n) ==> {
                    &&& 1 <= n
                    &&& pos + n <= buf@.len()
                    &&& final(self).wf()
                    &&& final(self).tracks(final(writer).written())
                    &&& final(self).continuation(buf@.skip(pos + n) + after) == d
                }
                &&& r matches Err(SnappyError::FormatError(m)) ==> {
                    &&& final(self).tracks(final(writer).written())
                    &&& d.output == final(self).output@
                    &&& d.fault matches Some(f) && m == f.message()
                }
                &&& r matches Err(SnappyError::IoError(_)) ==> !old(writer).dependable()
            }),
    {
        let ghost stream = self.pending() + buf@.skip(pos as int);
        let ghost out = self.output@;
        proof {
            reveal(Decompressor::continuation);
            assert(self.pending() + (buf@.skip(pos as int) + after) =~= stream + after);
        }
        let (taken, tag) = self.advance_tag(buf, pos);
        let ghost n = tag_size(stream[0]) as int;
        let ghost rest = buf@.skip(pos + taken) + after;
        match tag {
            None => {
                proof {
                    assert(rest =~= after);
                    assert(self.pending() + rest =~= stream + after);
                }
            },
            Some(t) => {
                proof {
                    lemma_tag_front(stream, after, n);
                    assert(stream.skip(n) =~= buf@.skip(pos + taken));
                    assert(self.pending() =~= Seq::<u8>::empty());
                    assert(self.pending() + rest =~= rest);
                }
                match t {
                    Tag::Literal { size } => {
                        self.literal_left = size;
                    },
                    Tag::Copy { len, offset } => {
                        if offset == 0 {
                            return Err(SnappyError::FormatError("zero-length offset"));
                        }
                        if offset as u64 > self.produced {
                            return Err(SnappyError::FormatError("offset exceeds output length"));
                        }
                        proof {
                            crate::lemmas::lemma_self_copy_prefix(
                                self.base@,
                                out,
                                offset as nat,
                                len as nat,
                            );
                            crate::lemmas::lemma_self_copy_len(out, offset as nat, len as nat);
                        }
                        match writer.write_from_self(offset, len) {
                            Err(e) => {
                                return Err(SnappyError::IoError(e));
                            },
                            Ok(()) => {},
                        }
                        let ghost grown = self_copy(out, offset as nat, len as nat);
                        self.count(len as u64, Ghost(grown));
                    },
                }
            },
        }
        Ok(taken)
    }

    /// Decodes all of `buf`, which continues what the decoder has seen, and
    /// writes what it produces to `writer`. `after` is what follows `buf` in
    /// the source.
    fn feed<W: SnappyWrite>(&mut self, buf: &[u8], writer: &mut W, Ghost(after): Ghost<Seq<u8>>) -> (r:
        Result<(), SnappyError>)
        requires
            old(self).wf(),
            old(self).tracks(old(writer).written()),
        ensures
            final(writer).dependable() == old(writer).dependable(),
            final(self).base == old(self).base,
            ({
                let d = old(self).continuation(buf@ + after);
                &&& r is Ok ==> {
                    &&& final(self).wf()
                    &&& final(self).tracks(final(writer).written())
                    &&& final(self).continuation(after) == d
                }
                &&& r matches Err(SnappyError::FormatError(m)) ==> {
                    &&& final(self).tracks(final(writer).written())
                    &&& d.output == final(self).output@
                    &&& d.fault matches Some(f) && m == f.message()
                }
                &&& r matches Err(SnappyError::IoError(_)) ==> !old(writer).dependable()
            }),
    {
        let ghost target = self.continuation(buf@ + after);
        let len = buf.len();
        let mut pos: usize = 0;
        proof {
            assert(buf@.skip(0) =~= buf@);
        }
        while pos < len
            invariant
                pos <= len,
                len == buf@.len(),
                self.wf(),
                self.tracks(writer.written()),
                self.base == old(self).base,
                writer.dependable() == old(writer).dependable(),
                target == old(self).continuation(buf@ + after),
                self.continuation(buf@.skip(pos as int) + after) == target,
            decreases len - pos,
        {
            let step = if self.literal_left > 0 {
                self.stream_literal(buf, pos, writer, Ghost(after))
            } else {
                self.take_tag(buf, pos, writer, Ghost(after))
            };
            match step {
                Err(e) => {
                    return Err(e);
                },
                Ok(n) => {
                    pos += n;
                },
            }
        }
        proof {
            assert(buf@.skip(len as int) + after =~= after);
        }
        Ok(())
    }

    /// The outcome at the end of the source: success between two tags, a
    /// format error inside a tag or a literal.
    fn finish(&self) -> (r: Result<(), SnappyError>)
        requires
            self.wf(),
        ensures
            !(r matches Err(SnappyError::IoError(_))),
            matches_model(r, self.continuation(Seq::empty())),
            self.continuation(Seq::empty()).output == self.output@,
    {
        proof {
            reveal(Decompressor::continuation);
            let s = self.pending() + Seq::<u8>::empty();
            assert(s =~= self.pending());
            if self.literal_left > 0 {
                assert(self.output@ + s =~= self.output@);
            } else if self.tmp_len > 0 {
                assert(s[0] == self.tmp@[0]);
            }
        }
        if self.literal_left > 0 {
            Err(SnappyError::FormatError("EOF while reading literal"))
        } else if self.tmp_len > 0 {
            Err(SnappyError::FormatError("EOF while reading tag"))
        } else {
            Ok(())
        }
    }

    /// Decodes tags from `reader` to its end and writes what they produce
    /// to `writer`.
    #[verifier::loop_isolation(false)]
    fn decompress<R: SnappyRead, W: SnappyWrite>(&mut self, reader: &mut R, writer: &mut W) -> (r:
        Result<(), SnappyError>)
        requires
            old(self).wf(),
            old(self).tracks(old(writer).written()),
        ensures
            final(reader).reliable() == old(reader).reliable(),
            final(writer).dependable() == old(writer).dependable(),
            ({
                let d = old(self).continuation(old(reader).remaining());
                let base = old(self).base@;
                let sound = old(reader).reliable() && old(writer).dependable();
                &&& r is Ok ==> d.fault is None && final(reader).remaining().len() == 0
                &&& r matches Err(SnappyError::FormatError(m)) ==> d.fault matches Some(f) && m
                    == f.message()
                &&& !(r matches Err(SnappyError::IoError(_))) ==> final(writer).written() == base
                    + d.output
                &&& r matches Err(SnappyError::IoError(_)) ==> !sound
            }),
    {
        let ghost target = self.continuation(reader.remaining());
        loop
            invariant
                self.wf(),
                self.tracks(writer.written()),
                self.base == old(self).base,
                reader.reliable() == old(reader).reliable(),
                writer.dependable() == old(writer).dependable(),
                self.continuation(reader.remaining()) == target,
            decreases reader.remaining().len(),
        {
            let ghost unread = reader.remaining();
            let buf = match reader.fill_buf() {
                Err(e) => {
                    return Err(SnappyError::IoError(e));
                },
                Ok(b) => b,
            };
            let len = buf.len();
            if len == 0 {
                proof {
                    assert(unread =~= Seq::<u8>::empty());
                }
                return self.finish();
            }
            let ghost after = unread.skip(len as int);
            proof {
                assert(buf@ + after =~= unread);
            }
            match self.feed(buf, writer, Ghost(after)) {
                Err(e) => {
                    return Err(e);
                },
                Ok(()) => {},
            }
            reader.consume(len);
        }
    }
}

/// Decompresses the stream that `reader` holds into `writer`: reads the
/// length prefix and tells it to the sink, then decodes tags to the end of
/// the source. The outcome is that of the model, unless the source or the
/// sink fails: success with the decoded bytes appended to the sink, or a
/// format error with the bytes decoded before the fault appended. The
/// announced length is not held against the number of bytes decoded.
pub fn decompress<R: SnappyRead, W: SnappyWrite>(reader: &mut R, writer: &mut W) -> (r: Result<
    (),
    SnappyError,
>)
    ensures
        final(reader).reliable() == old(reader).reliable(),
        final(writer).dependable() == old(writer).dependable(),
        r is Ok ==> final(reader).remaining().len() == 0,
        ({
            let d = decode(old(reader).remaining());
            let sound = old(reader).reliable() && old(writer).dependable();
            &&& r matches Err(SnappyError::IoError(_)) ==> !sound
            &&& !(r matches Err(SnappyError::IoError(_))) ==> {
                &&& matches_model(r, d)
                &&& final(writer).written() == old(writer).written() + d.output
            }
        }),
{
    let ghost base = writer.written();
    let uncompressed_length = match read_uncompressed_length(reader) {
        Err(e) => {
            proof {
                assert(base + Seq::<u8>::empty() =~= base);
            }
            return Err(e);
        },
        Ok(n) => n,
    };
    writer.set_uncompressed_length(uncompressed_length);
    let mut decompressor = Decompressor::new(Ghost(base));
    decompressor.decompress(reader, writer)
}

} // verus!
