//! The encoder: cuts the input into blocks, searches each block for
//! matches, and writes literals and copies.

use crate::dict::{agree, cleared, fresh_slots, lookup, recorded, slots_fit, table_size, Dict, Slot};
use crate::emit::{emit_copy, emit_literal, write_varint};
use crate::lemmas::{
    lemma_copy_reproduces, lemma_encodes_concat, lemma_encodes_nothing, lemma_parse_varint,
    lemma_roundtrip, lemma_run_elements, lemma_snoc,
};
use crate::stream::{ByteSink, SnappyRead};
use crate::wire::{
    all_valid, apply_all, copy_run, decode, encode_all, encodes, is_stream_of, literal_bytes,
    max_literal_len, parse_length, span_all, varint, Decoded, Element, Fault, Prefix,
    MIN_COPY_LEN,
};
use vstd::prelude::*;

verus! {

/// The largest block that the encoder searches for matches at once.
pub const MAX_BLOCK_SIZE: usize = 65535;

/// The encoder looks for matches only at positions that leave this many
/// bytes to the end of the block.
pub const BLOCK_MARGIN: usize = 16;

/// What the search writes, and the table that it leaves.
pub struct Scanned {
    pub bytes: Seq<u8>,
    pub slots: Seq<Slot>,
}

/// What the search writes for `block` from position `at` on, where the
/// bytes from `literal_start` to `at` have not been written yet and the
/// table is `slots`. Up to the margin before the end of the block, a
/// position without a match is passed over; a position with a match gives
/// the bytes not yet written as a literal, then the match as a run of
/// copies, and the search goes on behind the match. At the margin, what is
/// left is a literal.
pub open spec fn scan(slots: Seq<Slot>, block: Seq<u8>, at: int, literal_start: int) -> Scanned
    decreases block.len() - at,
{
    let found = lookup(slots, block, at);
    let next = recorded(slots, block, at);
    if at + BLOCK_MARGIN >= block.len() {
        Scanned { bytes: pending_literal(block, literal_start, block.len() as int), slots }
    } else if found is None {
        scan(next, block, at + 1, literal_start)
    } else {
        let pos = found.unwrap().0;
        let len = found.unwrap().1;
        // A match has four bytes or more, and ends in the block.
        let behind = if len >= 1 && at + len <= block.len() {
            at + len
        } else {
            block.len() as int
        };
        let rest = scan(next, block, behind, behind);
        Scanned {
            bytes: pending_literal(block, literal_start, at) + copy_run(
                (at - pos) as nat,
                len as nat,
            ) + rest.bytes,
            slots: rest.slots,
        }
    }
}

/// The bytes of `block` from `from` to `to` as a literal, or nothing where
/// there are none.
pub open spec fn pending_literal(block: Seq<u8>, from: int, to: int) -> Seq<u8> {
    if from < to {
        literal_bytes(block.subrange(from, to))
    } else {
        Seq::empty()
    }
}

/// What the encoder writes for `block`, and the table that it leaves, where
/// the table was `slots`: one literal for a block too short to search, else
/// what the search writes.
pub open spec fn block_scan(slots: Seq<Slot>, block: Seq<u8>) -> Scanned {
    if block.len() < BLOCK_MARGIN {
        Scanned { bytes: literal_bytes(block), slots }
    } else {
        scan(slots, block, 0, 0)
    }
}

/// The search at a position without a match.
proof fn lemma_scan_miss(slots: Seq<Slot>, block: Seq<u8>, at: int, literal_start: int)
    requires
        at + BLOCK_MARGIN < block.len(),
        lookup(slots, block, at) is None,
    ensures
        scan(slots, block, at, literal_start) == scan(
            recorded(slots, block, at),
            block,
            at + 1,
            literal_start,
        ),
{
}

/// The search at a position with a match.
proof fn lemma_scan_hit(
    slots: Seq<Slot>,
    block: Seq<u8>,
    at: int,
    literal_start: int,
    pos: u16,
    len: u16,
)
    requires
        at + BLOCK_MARGIN < block.len(),
        lookup(slots, block, at) == Some((pos, len)),
        len >= 1,
        at + len <= block.len(),
    ensures
        scan(slots, block, at, literal_start).bytes == pending_literal(block, literal_start, at)
            + copy_run((at - pos) as nat, len as nat) + scan(
            recorded(slots, block, at),
            block,
            at + len,
            at + len,
        ).bytes,
        scan(slots, block, at, literal_start).slots == scan(
            recorded(slots, block, at),
            block,
            at + len,
            at + len,
        ).slots,
{
}

/// The search at the margin.
proof fn lemma_scan_end(slots: Seq<Slot>, block: Seq<u8>, at: int, literal_start: int)
    requires
        at + BLOCK_MARGIN >= block.len(),
    ensures
        scan(slots, block, at, literal_start) == (Scanned {
            bytes: pending_literal(block, literal_start, block.len() as int),
            slots,
        }),
{
}

/// Whether a sink that held `before` and now holds `after` has gained an
/// encoding of `block`: tags that reproduce the block from nothing. A block
/// too short to search is one literal. A block of six bytes or more grows
/// by at most a sixth.
pub open spec fn block_encoded(before: Seq<u8>, after: Seq<u8>, block: Seq<u8>) -> bool {
    let enc = after.skip(before.len() as int);
    &&& before.len() <= after.len()
    &&& after.take(before.len() as int) == before
    &&& encodes(enc, block)
    &&& block.len() < BLOCK_MARGIN ==> enc == literal_bytes(block)
    &&& block.len() >= 6 ==> 6 * enc.len() <= 7 * block.len()
    &&& enc.len() <= block.len() + block.len() / 6 + 1
}

/// The number of bytes of a literal's encoding.
pub proof fn lemma_literal_cost(bytes: Seq<u8>)
    requires
        1 <= bytes.len() <= max_literal_len(),
    ensures
        bytes.len() <= 60 ==> literal_bytes(bytes).len() == bytes.len() + 1,
        60 < bytes.len() <= 0x100 ==> literal_bytes(bytes).len() == bytes.len() + 2,
        0x100 < bytes.len() <= 0x1_0000 ==> literal_bytes(bytes).len() == bytes.len() + 3,
        literal_bytes(bytes).len() <= bytes.len() + 5,
{
}

/// What a literal adds to a block's elements: after elements that
/// reproduce the first `from` bytes of `block`, the bytes from `from` to
/// `to` as a literal give elements that reproduce the first `to` bytes.
proof fn lemma_literal_step(
    sink: Seq<u8>,
    es: Seq<Element>,
    block: Seq<u8>,
    from: int,
    to: int,
) -> (es2: Seq<Element>)
    requires
        all_valid(0, es),
        span_all(es) == from,
        apply_all(Seq::empty(), es) == block.take(from),
        0 <= from < to <= block.len() <= MAX_BLOCK_SIZE,
    ensures
        sink + encode_all(es) + literal_bytes(block.subrange(from, to)) == sink + encode_all(es2),
        encode_all(es2) == encode_all(es) + literal_bytes(block.subrange(from, to)),
        all_valid(0, es2),
        span_all(es2) == to,
        apply_all(Seq::empty(), es2) == block.take(to),
        to - from <= 60 ==> encode_all(es2).len() == encode_all(es).len() + (to - from) + 1,
        60 < to - from <= 0x100 ==> encode_all(es2).len() == encode_all(es).len() + (to - from)
            + 2,
        0x100 < to - from ==> encode_all(es2).len() == encode_all(es).len() + (to - from) + 3,
{
    let literal = block.subrange(from, to);
    let e = Element::Literal { bytes: literal };
    lemma_snoc(Seq::empty(), 0, es, e);
    lemma_literal_cost(literal);
    assert(sink + encode_all(es) + literal_bytes(literal) =~= sink + (encode_all(es)
        + literal_bytes(literal)));
    assert(block.take(from) + literal =~= block.take(to));
    es.push(e)
}

/// What a match adds to a block's elements: after elements that reproduce
/// the first `at` bytes of `block`, a run of `len` bytes from `pos`, where
/// the block holds the same bytes as from `at`, gives elements that
/// reproduce the first `at + len` bytes.
proof fn lemma_copy_step(
    sink: Seq<u8>,
    es: Seq<Element>,
    block: Seq<u8>,
    pos: int,
    at: int,
    len: nat,
) -> (es2: Seq<Element>)
    requires
        all_valid(0, es),
        span_all(es) == at,
        apply_all(Seq::empty(), es) == block.take(at),
        0 <= pos < at,
        len >= MIN_COPY_LEN,
        at + len <= block.len() <= MAX_BLOCK_SIZE,
        forall|k: int| 0 <= k < len ==> #[trigger] agree(block, pos, at, k),
    ensures
        sink + encode_all(es) + copy_run((at - pos) as nat, len) == sink + encode_all(es2),
        encode_all(es2) == encode_all(es) + copy_run((at - pos) as nat, len),
        all_valid(0, es2),
        span_all(es2) == at + len,
        apply_all(Seq::empty(), es2) == block.take(at + len),
        6 * (encode_all(es2).len() - encode_all(es).len()) + 10 <= 7 * len,
{
    let offset = (at - pos) as nat;
    let grown = lemma_run_elements(es, offset, len);
    assert forall|k: int| 0 <= k < len implies block[pos + k] == #[trigger] block[at + k] by {
        assert(agree(block, pos, at, k));
    }
    lemma_copy_reproduces(block, pos, at, len);
    assert(sink + encode_all(es) + copy_run(offset, len) =~= sink + (encode_all(es) + copy_run(
        offset,
        len,
    )));
    grown
}

/// What a whole block's elements say of the sink.
proof fn lemma_block_done(before: Seq<u8>, after: Seq<u8>, es: Seq<Element>, block: Seq<u8>)
    requires
        after == before + encode_all(es),
        all_valid(0, es),
        apply_all(Seq::empty(), es) == block,
    ensures
        before.len() <= after.len(),
        after.take(before.len() as int) == before,
        after.skip(before.len() as int) == encode_all(es),
        encodes(after.skip(before.len() as int), block),
{
    let enc = after.skip(before.len() as int);
    assert(enc =~= encode_all(es));
    assert(after.take(before.len() as int) =~= before);
    assert(enc == encode_all(es) && all_valid(0, es) && apply_all(Seq::empty(), es) == block);
}

/// Compresses one block: looks at each position, up to the margin before
/// the end, for an earlier position with the same four bytes; where there
/// is one, writes the bytes since the last match as a literal and the match
/// as a copy, and goes on behind it. What is left at the end is a literal.
pub fn compress_block<W: ByteSink>(block: &[u8], out: &mut W, dict: &mut Dict) -> (r: Result<
    (),
    std::io::Error,
>)
    requires
        1 <= block@.len() <= MAX_BLOCK_SIZE,
        old(dict).wf(),
        old(dict).is_clear(),
    ensures
        final(dict).wf(),
        final(dict)@.len() == old(dict)@.len(),
        final(out).dependable() == old(out).dependable(),
        old(out).dependable() ==> r is Ok,
        r is Ok ==> block_encoded(old(out).written(), final(out).written(), block@),
        r is Ok ==> final(out).written() == old(out).written() + block_scan(
            old(dict)@,
            block@,
        ).bytes,
        r is Ok ==> final(dict)@ == block_scan(old(dict)@, block@).slots,
{
    let ghost before = out.written();
    let ghost target = block_scan(dict@, block@);
    let ghost mut es = Seq::<Element>::empty();
    assert(before + encode_all(es) =~= before);
    assert(block@.take(0) =~= Seq::<u8>::empty());
    if block.len() < BLOCK_MARGIN {
        // Too short to look for copies.
        let r = emit_literal(out, block);
        proof {
            if r is Ok {
                assert(block@.subrange(0, block@.len() as int) =~= block@);
                let grown = lemma_literal_step(before, es, block@, 0, block@.len() as int);
                assert(block@.take(block@.len() as int) =~= block@);
                lemma_block_done(before, out.written(), grown, block@);
                assert(encode_all(Seq::<Element>::empty()) + literal_bytes(block@)
                    =~= literal_bytes(block@));
            }
        }
        return r;
    }
    let imax = block.len() - BLOCK_MARGIN;
    let mut i: usize = 0;
    let mut literal_start: usize = 0;
    proof {
        assert(encode_all(es) + target.bytes =~= target.bytes);
    }
    while i < imax
        invariant
            literal_start <= i <= block@.len(),
            imax + BLOCK_MARGIN == block@.len(),
            block@.len() <= MAX_BLOCK_SIZE,
            dict.wf(),
            dict@.len() == old(dict)@.len(),
            slots_fit(dict@, block@, i as int),
            out.dependable() == old(out).dependable(),
            out.written() == before + encode_all(es),
            all_valid(0, es),
            span_all(es) == literal_start,
            apply_all(Seq::empty(), es) == block@.take(literal_start as int),
            6 * encode_all(es).len() + (if literal_start > 0 { 5int } else { 0int }) <= 7
                * literal_start,
            encode_all(es) + scan(dict@, block@, i as int, literal_start as int).bytes
                == target.bytes,
            scan(dict@, block@, i as int, literal_start as int).slots == target.slots,
        decreases block@.len() - i,
    {
        let ghost slots = dict@;
        match dict.find_best_match_or_add(block, i) {
            None => {
                proof {
                    lemma_scan_miss(slots, block@, i as int, literal_start as int);
                }
                i += 1;
            },
            Some((pos, len)) => {
                let ghost emitted = encode_all(es);
                let ghost literal_seq = pending_literal(block@, literal_start as int, i as int);
                proof {
                    lemma_scan_hit(slots, block@, i as int, literal_start as int, pos, len);
                }
                if literal_start < i {
                    let literal = &block[literal_start..i];
                    match emit_literal(out, literal) {
                        Err(e) => {
                            return Err(e);
                        },
                        Ok(()) => {},
                    }
                    proof {
                        es = lemma_literal_step(
                            before,
                            es,
                            block@,
                            literal_start as int,
                            i as int,
                        );
                    }
                } else {
                    assert(emitted + literal_seq =~= emitted);
                }
                let copy_offset = (i - pos as usize) as u16;
                match emit_copy(out, copy_offset, len) {
                    Err(e) => {
                        return Err(e);
                    },
                    Ok(()) => {},
                }
                proof {
                    es = lemma_copy_step(before, es, block@, pos as int, i as int, len as nat);
                    let run = copy_run(copy_offset as nat, len as nat);
                    let rest = scan(dict@, block@, i + len, i + len).bytes;
                    assert(emitted + (literal_seq + run + rest) =~= (emitted + literal_seq + run)
                        + rest);
                }
                i += len as usize;
                literal_start = i;
            },
        }
    }
    proof {
        lemma_scan_end(dict@, block@, i as int, literal_start as int);
    }
    let ghost emitted = encode_all(es);
    let r = if literal_start < block.len() {
        let literal = &block[literal_start..block.len()];
        let r = emit_literal(out, literal);
        proof {
            if r is Ok {
                es = lemma_literal_step(
                    before,
                    es,
                    block@,
                    literal_start as int,
                    block@.len() as int,
                );
            }
        }
        r
    } else {
        proof {
            assert(emitted + Seq::<u8>::empty() =~= emitted);
        }
        Ok(())
    };
    proof {
        if r is Ok {
            assert(block@.take(block@.len() as int) =~= block@);
            lemma_block_done(before, out.written(), es, block@);
        }
    }
    r
}

/// What the caller may choose about a compression.
pub struct CompressorOptions {
    /// The largest number of bytes that are searched for matches together.
    /// At least one.
    pub block_size: u16,
}

impl Default for CompressorOptions {
    /// The largest block size.
    fn default() -> (r: CompressorOptions)
        ensures
            r.block_size == MAX_BLOCK_SIZE,
    {
        CompressorOptions { block_size: 65535 }
    }
}

/// Whether a sink that held `before` and now holds `after` has gained a
/// complete encoding of `data`: its length as a varint, then tags that
/// reproduce it. Such a stream decodes to `data`.
pub open spec fn compressed(before: Seq<u8>, after: Seq<u8>, data: Seq<u8>) -> bool {
    let stream = after.skip(before.len() as int);
    &&& before.len() <= after.len()
    &&& after.take(before.len() as int) == before
    &&& is_stream_of(stream, data)
    &&& decode(stream) == (Decoded { output: data, fault: None })
    &&& parse_length(stream) == Ok::<Prefix, Fault>(
        Prefix { value: data.len(), size: varint(data.len()).len() },
    )
}

/// The most bytes that the encoding of `n` bytes takes when the source is
/// contiguous and blocks hold six bytes or more.
pub open spec fn max_compressed_len(n: nat) -> nat {
    32 + n + n / 6
}

/// Compresses all of `inp` into `out` with the largest block size.
pub fn compress<R: SnappyRead, W: ByteSink>(inp: &mut R, out: &mut W) -> (r: Result<
    (),
    std::io::Error,
>)
    requires
        old(inp).remaining().len() <= u32::MAX,
    ensures
        final(out).dependable() == old(out).dependable(),
        final(inp).reliable() == old(inp).reliable(),
        old(inp).reliable() && old(out).dependable() ==> r is Ok,
        r is Ok ==> compressed(old(out).written(), final(out).written(), old(inp).remaining()),
        r is Ok ==> final(inp).remaining().len() == 0,
        r is Ok && old(inp).contiguous() ==> final(out).written() == old(out).written()
            + stream_bytes(old(inp).remaining(), 0xFFFF),
        r is Ok && old(inp).contiguous() ==> final(out).written().len() - old(out).written().len()
            <= max_compressed_len(old(inp).remaining().len()),
{
    let options = CompressorOptions::default();
    compress_with_options(inp, out, &options)
}

/// What the encoder writes for one buffer of the source, and the table that
/// it leaves, where the table was `slots`: the buffer is cut into blocks of
/// `block_size` bytes, the last one shorter if it has to be, and the table
/// is cleared after each block but the last of the input. `left` is the
/// number of bytes of input that follow the buffer.
pub open spec fn buffer_scan(slots: Seq<Slot>, buf: Seq<u8>, block_size: nat, left: nat) -> Scanned
    decreases buf.len(),
{
    if buf.len() == 0 || block_size == 0 {
        Scanned { bytes: Seq::empty(), slots }
    } else {
        let n = if buf.len() > block_size {
            block_size as int
        } else {
            buf.len() as int
        };
        let first = block_scan(slots, buf.take(n));
        let next = if buf.len() - n + left > 0 {
            cleared(first.slots)
        } else {
            first.slots
        };
        let rest = buffer_scan(next, buf.skip(n), block_size, left);
        Scanned { bytes: first.bytes + rest.bytes, slots: rest.slots }
    }
}

/// What the encoder writes for `data` from a source that hands it out in
/// one buffer: the length of `data` as a varint, then the blocks of `data`,
/// searched with a table made for an eighth of the block size, or of the
/// length of `data` where that is less.
pub open spec fn stream_bytes(data: Seq<u8>, block_size: u16) -> Seq<u8> {
    let longest = if block_size < data.len() {
        block_size as nat
    } else {
        data.len()
    };
    varint(data.len()) + buffer_scan(
        fresh_slots(table_size((longest / 8) as u32)),
        data,
        block_size as nat,
        0,
    ).bytes
}

/// Whether a sink that held `before` and now holds `after` has gained an
/// encoding of `data`, block after block. With blocks of six bytes or more
/// it is at most a sixth longer than `data`, and one byte.
pub open spec fn buffer_encoded(
    before: Seq<u8>,
    after: Seq<u8>,
    data: Seq<u8>,
    block_size: nat,
) -> bool {
    let enc = after.skip(before.len() as int);
    &&& before.len() <= after.len()
    &&& after.take(before.len() as int) == before
    &&& encodes(enc, data)
    &&& block_size >= 6 ==> 6 * enc.len() <= 7 * data.len() + 6
}

/// One block of a buffer, and the rest of the buffer.
proof fn lemma_buffer_step(
    slots: Seq<Slot>,
    buf: Seq<u8>,
    at: int,
    end: int,
    block_size: nat,
    left: nat,
)
    requires
        0 <= at < end <= buf.len(),
        block_size >= 1,
        end == if buf.len() - at > block_size {
            at + block_size
        } else {
            buf.len() as int
        },
    ensures
        ({
            let first = block_scan(slots, buf.subrange(at, end));
            let next = if buf.len() - end + left > 0 {
                cleared(first.slots)
            } else {
                first.slots
            };
            let rest = buffer_scan(next, buf.skip(end), block_size, left);
            let all = buffer_scan(slots, buf.skip(at), block_size, left);
            all.bytes == first.bytes + rest.bytes && all.slots == rest.slots
        }),
{
    let tail = buf.skip(at);
    let n = end - at;
    assert(tail.take(n) =~= buf.subrange(at, end));
    assert(tail.skip(n) =~= buf.skip(end));
}

/// Compresses one buffer of the source, cut into blocks of `block_size`
/// bytes. `written` counts the bytes compressed so far, of `total`. The
/// dictionary is cleared after each block that is not the last of the
/// input.
pub fn compress_buffer<W: ByteSink>(
    buf: &[u8],
    out: &mut W,
    dict: &mut Dict,
    block_size: u16,
    written: &mut u32,
    total: u32,
) -> (r: Result<(), std::io::Error>)
    requires
        1 <= buf@.len(),
        *old(written) + buf@.len() <= total,
        block_size >= 1,
        old(dict).wf(),
        old(dict).is_clear(),
    ensures
        final(dict).wf(),
        final(dict)@.len() == old(dict)@.len(),
        final(out).dependable() == old(out).dependable(),
        old(out).dependable() ==> r is Ok,
        r is Ok ==> {
            let left = (total - *old(written) - buf@.len()) as nat;
            let scanned = buffer_scan(old(dict)@, buf@, block_size as nat, left);
            &&& buffer_encoded(old(out).written(), final(out).written(), buf@, block_size as nat)
            &&& final(out).written() == old(out).written() + scanned.bytes
            &&& final(dict)@ == scanned.slots
            &&& *final(written) == *old(written) + buf@.len()
            &&& *final(written) < total ==> final(dict).is_clear()
        },
{
    let ghost before = out.written();
    let ghost start = *written;
    let ghost left = (total - start - buf@.len()) as nat;
    let ghost target = buffer_scan(dict@, buf@, block_size as nat, left);
    let len = buf.len();
    let size = block_size as usize;
    let mut at: usize = 0;
    let ghost mut body = Seq::<u8>::empty();
    proof {
        lemma_encodes_nothing();
        assert(before + body =~= before);
        assert(buf@.take(0) =~= Seq::<u8>::empty());
        assert(buf@.skip(0) =~= buf@);
        assert(body + target.bytes =~= target.bytes);
    }
    while at < len
        invariant
            at <= len,
            len == buf@.len(),
            size == block_size,
            size >= 1,
            start + len <= total,
            left == total - start - len,
            *written == start + at,
            out.dependable() == old(out).dependable(),
            out.written() == before + body,
            encodes(body, buf@.take(at as int)),
            dict.wf(),
            dict@.len() == old(dict)@.len(),
            *written < total ==> dict.is_clear(),
            size >= 6 ==> 6 * body.len() <= 7 * at + (if at == len { 6int } else { 0int }),
            body + buffer_scan(dict@, buf@.skip(at as int), size as nat, left).bytes
                == target.bytes,
            buffer_scan(dict@, buf@.skip(at as int), size as nat, left).slots == target.slots,
        decreases len - at,
    {
        let end = if len - at > size { at + size } else { len };
        let chunk = &buf[at..end];
        let ghost sink = out.written();
        let ghost slots = dict@;
        match compress_block(chunk, out, dict) {
            Err(e) => {
                return Err(e);
            },
            Ok(()) => {},
        }
        proof {
            let enc = out.written().skip(sink.len() as int);
            assert(out.written() =~= sink + enc);
            assert(enc =~= block_scan(slots, chunk@).bytes);
            lemma_encodes_concat(body, buf@.take(at as int), enc, chunk@);
            assert(buf@.take(at as int) + chunk@ =~= buf@.take(end as int));
            assert(before + body + enc =~= before + (body + enc));
            lemma_buffer_step(slots, buf@, at as int, end as int, size as nat, left);
            let rest = buffer_scan(
                if len - end + left > 0 {
                    cleared(dict@)
                } else {
                    dict@
                },
                buf@.skip(end as int),
                size as nat,
                left,
            );
            assert(body + (enc + rest.bytes) =~= (body + enc) + rest.bytes);
            body = body + enc;
        }
        *written = *written + (end - at) as u32;
        if *written < total {
            dict.clear();
        }
        at = end;
    }
    proof {
        assert(buf@.take(len as int) =~= buf@);
        assert(out.written().skip(before.len() as int) =~= body);
        assert(out.written().take(before.len() as int) =~= before);
        assert(body + Seq::<u8>::empty() =~= body);
    }
    Ok(())
}

/// Compresses all of `inp` into `out`: writes the length of the input as a
/// varint, then compresses the input block by block, each buffer of the
/// source cut into blocks of `options.block_size` bytes. The dictionary is
/// cleared between blocks.
///
/// What is written decodes to the input. Which tags are written depends on
/// the buffers that the source hands out; for a source that hands out
/// everything at once they are those of `stream_bytes`.
#[verifier::loop_isolation(false)]
pub fn compress_with_options<R: SnappyRead, W: ByteSink>(
    inp: &mut R,
    out: &mut W,
    options: &CompressorOptions,
) -> (r: Result<(), std::io::Error>)
    requires
        old(inp).remaining().len() <= u32::MAX,
        options.block_size >= 1,
    ensures
        final(out).dependable() == old(out).dependable(),
        final(inp).reliable() == old(inp).reliable(),
        old(inp).reliable() && old(out).dependable() ==> r is Ok,
        r is Ok ==> compressed(old(out).written(), final(out).written(), old(inp).remaining()),
        r is Ok ==> final(inp).remaining().len() == 0,
        r is Ok && old(inp).contiguous() ==> final(out).written() == old(out).written()
            + stream_bytes(old(inp).remaining(), options.block_size),
        r is Ok && old(inp).contiguous() && options.block_size >= 6 ==> final(out).written().len()
            - old(out).written().len() <= max_compressed_len(old(inp).remaining().len()),
{
    let ghost data = inp.remaining();
    let ghost before = out.written();
    let ghost whole = inp.contiguous();
    let ghost bounded = inp.contiguous() && options.block_size >= 6;
    let uncompressed_length: u32 = match inp.available() {
        Err(e) => {
            return Err(e);
        },
        Ok(n) => n as u32,
    };
    match write_varint(out, uncompressed_length) {
        Err(e) => {
            return Err(e);
        },
        Ok(()) => {},
    }
    let ghost head = varint(data.len());
    let max_block_len = if (options.block_size as u32) < uncompressed_length {
        options.block_size as u32
    } else {
        uncompressed_length
    };
    let mut dict = Dict::new(max_block_len / 8);
    let mut written: u32 = 0;
    let ghost mut body = Seq::<u8>::empty();
    let ghost fresh = dict@;
    let ghost exact = buffer_scan(fresh, data, options.block_size as nat, 0).bytes;
    proof {
        lemma_encodes_nothing();
        lemma_parse_varint(data.len(), body);
        assert(before + head + body =~= before + head);
        assert(data.take(0) =~= Seq::<u8>::empty());
        assert(data.skip(0) =~= data);
    }
    loop
        invariant
            written <= uncompressed_length,
            inp.remaining() == data.skip(written as int),
            inp.reliable() == old(inp).reliable(),
            whole ==> inp.contiguous(),
            out.dependable() == old(out).dependable(),
            out.written() == before + head + body,
            encodes(body, data.take(written as int)),
            dict.wf(),
            written < uncompressed_length ==> dict.is_clear(),
            whole ==> (written == 0 && body.len() == 0 && dict@ == fresh) || (written
                == uncompressed_length && body == exact),
            bounded ==> (written == 0 && body.len() == 0) || (written == uncompressed_length && 6
                * body.len() <= 7 * uncompressed_length + 6),
        decreases uncompressed_length - written,
    {
        let ghost start = written;
        let buf = match inp.fill_buf() {
            Err(e) => {
                return Err(e);
            },
            Ok(b) => b,
        };
        let len = buf.len();
        if len == 0 {
            proof {
                assert(data.take(written as int) =~= data);
                let stream = out.written().skip(before.len() as int);
                assert(stream =~= head + body);
                assert(out.written().take(before.len() as int) =~= before);
                assert(stream.take(head.len() as int) =~= head);
                assert(stream.skip(head.len() as int) =~= body);
                lemma_roundtrip(stream, data);
                if whole {
                    assert(body =~= exact);
                    assert(before + head + body =~= before + (head + exact));
                }
            }
            return Ok(());
        }
        let ghost sink = out.written();
        match compress_buffer(
            buf,
            out,
            &mut dict,
            options.block_size,
            &mut written,
            uncompressed_length,
        ) {
            Err(e) => {
                return Err(e);
            },
            Ok(()) => {},
        }
        proof {
            let enc = out.written().skip(sink.len() as int);
            assert(out.written() =~= sink + enc);
            lemma_encodes_concat(body, data.take(start as int), enc, buf@);
            assert(data.take(start as int) + buf@ =~= data.take(written as int));
            assert(before + head + body + enc =~= before + head + (body + enc));
            if whole {
                assert(buf@ =~= data);
                assert(body + enc =~= enc);
            }
            body = body + enc;
        }
        inp.consume(len);
        proof {
            assert(data.skip(start as int).skip(len as int) =~= data.skip(written as int));
        }
    }
}

} // verus!
