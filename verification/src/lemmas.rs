//! What follows from the model of the wire format: how sequences of
//! elements compose, and that decoding undoes encoding.

use crate::wire::{
    all_valid, apply_all, byte_at, byte_count, copy_len, copy_offset, copy_run, copy_tag, decode,
    decode_from, encode_all, encodes, group_weight, is_literal, is_stream_of, le_bytes, le_value,
    literal_bytes, literal_header, literal_len, max_literal_len, parse_length, parse_length_from,
    radix, self_copy, span_all, tag_size, varint, Decoded, Element, Prefix,
};
use vstd::prelude::*;

verus! {

/// Repeating bytes adds as many bytes as are repeated.
pub proof fn lemma_self_copy_len(out: Seq<u8>, offset: nat, len: nat)
    ensures
        self_copy(out, offset, len).len() == out.len() + len,
    decreases len,
{
    if len > 0 {
        lemma_self_copy_len(out.push(out[out.len() - offset]), offset, (len - 1) as nat);
    }
}

/// Repeating `a + b` bytes is repeating `a` bytes and then `b` more.
pub proof fn lemma_self_copy_add(out: Seq<u8>, offset: nat, a: nat, b: nat)
    ensures
        self_copy(out, offset, a + b) == self_copy(self_copy(out, offset, a), offset, b),
    decreases a,
{
    if a > 0 {
        lemma_self_copy_add(out.push(out[out.len() - offset]), offset, (a - 1) as nat, b);
    }
}

/// Repeating no more bytes than the offset is a copy of a block that lies
/// wholly before the end.
pub proof fn lemma_self_copy_block(out: Seq<u8>, offset: nat, len: nat)
    requires
        len <= offset <= out.len(),
    ensures
        self_copy(out, offset, len) == out + out.subrange(
            out.len() - offset,
            out.len() - offset + len,
        ),
    decreases len,
{
    let a = out.len() - offset;
    if len == 0 {
        assert(out + out.subrange(a, a) =~= out);
    } else {
        let next = out.push(out[a]);
        lemma_self_copy_block(next, offset, (len - 1) as nat);
        assert(next + next.subrange(a + 1, a + len) =~= out + out.subrange(a, a + len));
    }
}

/// What the four functions on element sequences say of a sequence with one
/// more element at its end.
pub proof fn lemma_snoc(out: Seq<u8>, produced: nat, es: Seq<Element>, e: Element)
    ensures
        encode_all(es.push(e)) == encode_all(es) + e.encoding(),
        apply_all(out, es.push(e)) == e.apply(apply_all(out, es)),
        span_all(es.push(e)) == span_all(es) + e.span(),
        all_valid(produced, es.push(e)) == (all_valid(produced, es) && e.valid(
            produced + span_all(es),
        )),
{
    assert(es.push(e).drop_last() =~= es);
    assert(es.push(e).last() == e);
}

/// Valid elements add as many bytes to the output as they span.
pub proof fn lemma_apply_len(out: Seq<u8>, es: Seq<Element>)
    ensures
        apply_all(out, es).len() == out.len() + span_all(es),
    decreases es.len(),
{
    if es.len() > 0 {
        lemma_apply_len(out, es.drop_last());
        match es.last() {
            Element::Literal { bytes } => {},
            Element::Copy { offset, len } => {
                lemma_self_copy_len(apply_all(out, es.drop_last()), offset, len);
            },
        }
    }
}

/// A copy of bytes that equal the bytes which follow the output extends
/// the output by those bytes: where `data` holds the same `len` bytes from
/// `pos` on and from `at` on, with `pos` before `at`, repeating `len` bytes
/// from `at - pos` back after the first `at` bytes of `data` gives its first
/// `at + len` bytes.
pub proof fn lemma_copy_reproduces(data: Seq<u8>, pos: int, at: int, len: nat)
    requires
        0 <= pos < at,
        at + len <= data.len(),
        forall|k: int| 0 <= k < len ==> data[pos + k] == #[trigger] data[at + k],
    ensures
        self_copy(data.take(at), (at - pos) as nat, len) == data.take(at + len),
    decreases len,
{
    if len == 0 {
    } else {
        let cur = data.take(at);
        assert(data[pos + 0] == data[at + 0]);
        assert(cur.push(cur[cur.len() - (at - pos)]) =~= data.take(at + 1));
        assert forall|k: int| 0 <= k < len - 1 implies data[pos + 1 + k] == #[trigger] data[at + 1
            + k] by {
            assert(data[pos + (k + 1)] == data[at + (k + 1)]);
        }
        lemma_copy_reproduces(data, pos + 1, at + 1, (len - 1) as nat);
    }
}

/// The elements of a run: after `es`, a run of `len` bytes from `offset`
/// back is a sequence of valid copies whose encoding is `copy_run`. The run
/// costs at most three bytes for each piece of four or more.
pub proof fn lemma_run_elements(es: Seq<Element>, offset: nat, len: nat) -> (es2: Seq<Element>)
    requires
        len >= 4,
        1 <= offset <= span_all(es),
        offset <= 0xFFFF,
        all_valid(0, es),
    ensures
        encode_all(es2) == encode_all(es) + copy_run(offset, len),
        all_valid(0, es2),
        span_all(es2) == span_all(es) + len,
        apply_all(Seq::empty(), es2) == self_copy(apply_all(Seq::empty(), es), offset, len),
        6 * copy_run(offset, len).len() + 10 <= 7 * len,
    decreases len,
{
    let out = Seq::<u8>::empty();
    if len >= 68 {
        let e = Element::Copy { offset, len: 64 };
        lemma_snoc(out, 0, es, e);
        let es1 = es.push(e);
        let es2 = lemma_run_elements(es1, offset, (len - 64) as nat);
        lemma_self_copy_add(apply_all(out, es), offset, 64, (len - 64) as nat);
        assert(encode_all(es) + copy_tag(offset, 64) + copy_run(offset, (len - 64) as nat)
            =~= encode_all(es) + copy_run(offset, len));
        es2
    } else if len > 64 {
        let e = Element::Copy { offset, len: 60 };
        lemma_snoc(out, 0, es, e);
        let es1 = es.push(e);
        let f = Element::Copy { offset, len: (len - 60) as nat };
        lemma_snoc(out, 0, es1, f);
        lemma_self_copy_add(apply_all(out, es), offset, 60, (len - 60) as nat);
        assert(encode_all(es) + copy_tag(offset, 60) + copy_tag(offset, (len - 60) as nat)
            =~= encode_all(es) + copy_run(offset, len));
        es1.push(f)
    } else {
        let e = Element::Copy { offset, len };
        lemma_snoc(out, 0, es, e);
        es.push(e)
    }
}

/// Bytes that stand before the reach of a copy do not change what it
/// appends.
pub proof fn lemma_self_copy_prefix(prior: Seq<u8>, out: Seq<u8>, offset: nat, len: nat)
    requires
        1 <= offset <= out.len(),
    ensures
        self_copy(prior + out, offset, len) == prior + self_copy(out, offset, len),
    decreases len,
{
    if len > 0 {
        let x = out[out.len() - offset];
        assert((prior + out).push((prior + out)[(prior + out).len() - offset]) =~= prior
            + out.push(x));
        lemma_self_copy_prefix(prior, out.push(x), offset, (len - 1) as nat);
    } else {
    }
}

/// Elements that are valid from nothing are valid after any output, and
/// append to it what they produce from nothing.
pub proof fn lemma_rebase(prior: Seq<u8>, es: Seq<Element>)
    requires
        all_valid(0, es),
    ensures
        apply_all(prior, es) == prior + apply_all(Seq::empty(), es),
        all_valid(prior.len(), es),
    decreases es.len(),
{
    let none = Seq::<u8>::empty();
    if es.len() == 0 {
        assert(prior + none =~= prior);
    } else {
        let front = es.drop_last();
        lemma_rebase(prior, front);
        lemma_apply_len(none, front);
        match es.last() {
            Element::Literal { bytes } => {
                assert((prior + apply_all(none, front)) + bytes =~= prior + (apply_all(none, front)
                    + bytes));
            },
            Element::Copy { offset, len } => {
                lemma_self_copy_prefix(prior, apply_all(none, front), offset, len);
            },
        }
    }
}

/// What the four functions on element sequences say of two sequences put
/// together.
pub proof fn lemma_append(out: Seq<u8>, produced: nat, es1: Seq<Element>, es2: Seq<Element>)
    ensures
        encode_all(es1 + es2) == encode_all(es1) + encode_all(es2),
        apply_all(out, es1 + es2) == apply_all(apply_all(out, es1), es2),
        span_all(es1 + es2) == span_all(es1) + span_all(es2),
        all_valid(produced, es1 + es2) == (all_valid(produced, es1) && all_valid(
            produced + span_all(es1),
            es2,
        )),
    decreases es2.len(),
{
    if es2.len() == 0 {
        assert(es1 + es2 =~= es1);
        assert(encode_all(es1) + encode_all(es2) =~= encode_all(es1));
    } else {
        lemma_append(out, produced, es1, es2.drop_last());
        assert((es1 + es2).drop_last() =~= es1 + es2.drop_last());
        assert((es1 + es2).last() == es2.last());
        assert(encode_all(es1) + (encode_all(es2.drop_last()) + es2.last().encoding()) =~= (
        encode_all(es1) + encode_all(es2.drop_last())) + es2.last().encoding());
    }
}

/// Nothing encodes nothing.
pub proof fn lemma_encodes_nothing()
    ensures
        encodes(Seq::empty(), Seq::empty()),
{
    let es = Seq::<Element>::empty();
    assert(encode_all(es) == Seq::<u8>::empty() && all_valid(0, es) && apply_all(
        Seq::empty(),
        es,
    ) == Seq::<u8>::empty());
}

/// Encodings of two pieces of data, one after the other, encode the two
/// pieces put together: no copy of the second reaches into the first.
pub proof fn lemma_encodes_concat(a: Seq<u8>, x: Seq<u8>, b: Seq<u8>, y: Seq<u8>)
    requires
        encodes(a, x),
        encodes(b, y),
    ensures
        encodes(a + b, x + y),
{
    let none = Seq::<u8>::empty();
    let es1 = choose|es: Seq<Element>|
        #![auto]
        a == encode_all(es) && all_valid(0, es) && apply_all(Seq::empty(), es) == x;
    let es2 = choose|es: Seq<Element>|
        #![auto]
        b == encode_all(es) && all_valid(0, es) && apply_all(Seq::empty(), es) == y;
    lemma_append(none, 0, es1, es2);
    lemma_apply_len(none, es1);
    lemma_rebase(x, es2);
    let es = es1 + es2;
    assert(a + b == encode_all(es) && all_valid(0, es) && apply_all(Seq::empty(), es) == x + y);
}

/// The bytes of a value spell that value.
pub proof fn lemma_le_roundtrip(v: nat, count: nat)
    requires
        1 <= count <= 4,
        v < radix(count as int),
    ensures
        le_value(le_bytes(v, count)) == v,
        le_bytes(v, count).len() == count,
{
    let s = le_bytes(v, count);
    assert(byte_at(s, 0) == v % 256);
    if count >= 2 {
        assert(byte_at(s, 1) == (v / 0x100) % 256);
    }
    if count >= 3 {
        assert(byte_at(s, 2) == (v / 0x1_0000) % 256);
    }
    if count >= 4 {
        assert(byte_at(s, 3) == (v / 0x100_0000) % 256);
    }
}

/// A literal decodes to its bytes.
pub proof fn lemma_decode_literal(out: Seq<u8>, bytes: Seq<u8>, tail: Seq<u8>)
    requires
        1 <= bytes.len() <= max_literal_len(),
    ensures
        decode_from(out, 0, literal_bytes(bytes) + tail) == decode_from(out + bytes, 0, tail),
{
    let header = literal_header(bytes.len());
    let s = literal_bytes(bytes) + tail;
    let v = (bytes.len() - 1) as nat;
    let n = tag_size(s[0]) as int;
    if v < 60 {
        assert(header.len() == 1);
        assert(s[0] == (v * 4) as u8);
        assert(n == 1);
        assert(s.take(n) =~= header);
    } else {
        let count = byte_count(v);
        lemma_le_roundtrip(v, count);
        assert(header.len() == 1 + count);
        assert(s[0] == ((59 + count) * 4) as u8);
        assert(n == 1 + count);
        assert(s.take(n) =~= header);
        assert(header.skip(1) =~= le_bytes(v, count));
    }
    let rest = s.skip(n);
    assert(rest =~= bytes + tail);
    assert(literal_len(s.take(n)) == bytes.len());
    assert(is_literal(s[0]));
    assert(rest.take(bytes.len() as int) =~= bytes);
    assert(rest.skip(bytes.len() as int) =~= tail);
    assert(decode_from(out, 0, s) == decode_from(out, bytes.len(), rest));
    assert(decode_from(out, bytes.len(), rest) == decode_from(out + bytes, 0, tail));
}

/// The fields of a two-byte copy tag can be read back from its first byte.
pub proof fn lemma_short_copy_fields(offset: nat, len: nat)
    requires
        4 <= len <= 11,
        offset <= 2047,
    ensures
        ({
            let c = (len - 4) * 4 + 1 + (offset / 256) * 32;
            &&& 0 <= c <= 255
            &&& c % 4 == 1
            &&& (c / 4) % 8 == len - 4
            &&& c / 32 == offset / 256
        }),
{
}

/// What a copy tag says can be read back from it.
pub proof fn lemma_copy_tag_fields(offset: nat, len: nat)
    requires
        4 <= len <= 64,
        offset <= 0xFFFF,
    ensures
        copy_tag(offset, len).len() == tag_size(copy_tag(offset, len)[0]),
        !is_literal(copy_tag(offset, len)[0]),
        copy_len(copy_tag(offset, len)) == len,
        copy_offset(copy_tag(offset, len)) == offset,
{
    let tag = copy_tag(offset, len);
    if len <= 11 && offset <= 2047 {
        lemma_short_copy_fields(offset, len);
        let c = (len - 4) * 4 + 1 + (offset / 256) * 32;
        assert(tag[0] == c as u8);
        assert(tag[1] == offset % 256);
    } else {
        let c = (len - 1) * 4 + 2;
        assert(c % 4 == 2 && c / 4 == len - 1 && c <= 255);
        lemma_le_roundtrip(offset, 2);
        assert(tag[0] == c as u8);
        assert(tag.skip(1) =~= le_bytes(offset, 2));
    }
}

/// A copy that the encoder may emit decodes to what it repeats.
pub proof fn lemma_decode_copy(out: Seq<u8>, offset: nat, len: nat, tail: Seq<u8>)
    requires
        (Element::Copy { offset, len }).valid(out.len()),
    ensures
        decode_from(out, 0, copy_tag(offset, len) + tail) == decode_from(
            self_copy(out, offset, len),
            0,
            tail,
        ),
{
    let tag = copy_tag(offset, len);
    let s = tag + tail;
    lemma_copy_tag_fields(offset, len);
    let n = tag_size(s[0]) as int;
    assert(s[0] == tag[0]);
    assert(s.take(n) =~= tag);
    assert(s.skip(n) =~= tail);
}

/// Elements that the encoder may emit decode to what they produce.
pub proof fn lemma_decode_all(out: Seq<u8>, es: Seq<Element>, tail: Seq<u8>)
    requires
        all_valid(out.len(), es),
    ensures
        decode_from(out, 0, encode_all(es) + tail) == decode_from(apply_all(out, es), 0, tail),
    decreases es.len(),
{
    if es.len() == 0 {
        assert(encode_all(es) + tail =~= tail);
    } else {
        let front = es.drop_last();
        let e = es.last();
        lemma_decode_all(out, front, e.encoding() + tail);
        assert(encode_all(es) + tail =~= encode_all(front) + (e.encoding() + tail));
        lemma_apply_len(out, front);
        let mid = apply_all(out, front);
        match e {
            Element::Literal { bytes } => {
                lemma_decode_literal(mid, bytes, tail);
            },
            Element::Copy { offset, len } => {
                lemma_decode_copy(mid, offset, len, tail);
            },
        }
    }
}

/// Reading a length prefix from byte `i` on, where the bytes from there
/// spell `m` and the bytes before have contributed `acc`, gives `acc` plus
/// `m` at the weight of position `i`.
pub proof fn lemma_parse_from(s: Seq<u8>, i: nat, acc: nat, m: nat)
    requires
        i <= 4,
        acc + m * group_weight(i) <= u32::MAX,
        i + varint(m).len() <= s.len(),
        s.subrange(i as int, (i + varint(m).len()) as int) == varint(m),
    ensures
        i + varint(m).len() <= 5,
        parse_length_from(s, i, acc) == Ok::<Prefix, crate::wire::Fault>(
            Prefix { value: acc + m * group_weight(i), size: i + varint(m).len() },
        ),
    decreases m,
{
    let g = group_weight(i);
    let enc = varint(m);
    assert(s[i as int] == s.subrange(i as int, (i + enc.len()) as int)[0]);
    assert(g == 1 || g == 0x80 || g == 0x4000 || g == 0x20_0000 || g == 0x1000_0000);
    if m < 128 {
        assert(s[i as int] == m);
        assert((m % 128) * g == m * g) by (nonlinear_arith)
            requires
                m < 128,
        ;
    } else {
        let low = m % 128;
        let high = m / 128;
        assert(m == low + 128 * high);
        assert(m * g == low * g + high * (128 * g)) by (nonlinear_arith)
            requires
                m == low + 128 * high,
        ;
        assert(m * g >= 128 * g) by (nonlinear_arith)
            requires
                m >= 128,
                g >= 0,
        ;
        assert(i < 4);
        assert(group_weight(i + 1) == 128 * g);
        assert(enc =~= seq![(low + 128) as u8] + varint(high));
        assert(s[i as int] == low + 128);
        assert(s[i as int] % 128 == low);
        assert(low * g >= 0) by (nonlinear_arith)
            requires
                low >= 0,
                g >= 0,
        ;
        assert(high * (128 * g) >= 0) by (nonlinear_arith)
            requires
                high >= 0,
                g >= 0,
        ;
        assert(s.subrange((i + 1) as int, (i + 1 + varint(high).len()) as int) =~= varint(high)) by {
            assert forall|k: int| 0 <= k < varint(high).len() implies s[i + 1 + k] == varint(
                high,
            )[k] by {
                assert(s.subrange(i as int, (i + enc.len()) as int)[k + 1] == enc[k + 1]);
            }
        }
        lemma_parse_from(s, i + 1, acc + low * g, high);
    }
}

/// The length prefix that the encoder writes is read back as the length,
/// whatever follows it.
pub proof fn lemma_parse_varint(n: nat, tail: Seq<u8>)
    requires
        n <= u32::MAX,
    ensures
        1 <= varint(n).len() <= 5,
        parse_length(varint(n) + tail) == Ok::<Prefix, crate::wire::Fault>(
            Prefix { value: n, size: varint(n).len() },
        ),
{
    let s = varint(n) + tail;
    assert(s.subrange(0, varint(n).len() as int) =~= varint(n));
    lemma_parse_from(s, 0, 0, n);
}

/// Decoding undoes encoding: a complete encoding of `data` decodes to
/// `data` without a fault, and its length prefix reads as the length of
/// `data`.
pub proof fn lemma_roundtrip(stream: Seq<u8>, data: Seq<u8>)
    requires
        is_stream_of(stream, data),
    ensures
        decode(stream) == (Decoded { output: data, fault: None }),
        parse_length(stream) == Ok::<Prefix, crate::wire::Fault>(
            Prefix { value: data.len(), size: varint(data.len()).len() },
        ),
{
    let head = varint(data.len());
    let body = stream.skip(head.len() as int);
    lemma_parse_varint(data.len(), body);
    assert(head + body =~= stream);
    let es = choose|es: Seq<Element>|
        #![auto]
        body == encode_all(es) && all_valid(0, es) && apply_all(Seq::empty(), es) == data;
    lemma_decode_all(Seq::empty(), es, Seq::empty());
    assert(encode_all(es) + Seq::<u8>::empty() =~= body);
}

/// Decompression undoes compression. Take a sink that held `before` and
/// holds `after` once `data` has been compressed into it, and a
/// decompression of what it gained, with a source and a sink that do not
/// fail: by its contract that decompression ends with the outcome `r` that
/// the model calls for, and its sink, which held `sink_before`, then holds
/// that and the model's output. Then `r` is success, and the sink holds
/// `sink_before` and `data`.
pub proof fn lemma_decompress_undoes_compress(
    before: Seq<u8>,
    after: Seq<u8>,
    data: Seq<u8>,
    r: Result<(), crate::decompress::SnappyError>,
    sink_before: Seq<u8>,
    sink_after: Seq<u8>,
)
    requires
        crate::compress::compressed(before, after, data),
        crate::decompress::matches_model(r, decode(after.skip(before.len() as int))),
        sink_after == sink_before + decode(after.skip(before.len() as int)).output,
    ensures
        r is Ok,
        sink_after == sink_before + data,
{
}

/// Every copy among elements that the encoder may emit holds 4 to 64 bytes,
/// and reaches back at least one byte and no further than the output that
/// precedes it.
pub proof fn lemma_copy_bounds(produced: nat, es: Seq<Element>, i: int)
    requires
        all_valid(produced, es),
        0 <= i < es.len(),
    ensures
        es[i] matches Element::Copy { offset, len } ==> 4 <= len <= 64 && 1 <= offset <= produced
            + span_all(es.take(i)),
        es[i] matches Element::Literal { bytes } ==> bytes.len() >= 1,
    decreases es.len(),
{
    if i == es.len() - 1 {
        assert(es.take(i) =~= es.drop_last());
    } else {
        assert(es.drop_last().take(i) =~= es.take(i));
        lemma_copy_bounds(produced, es.drop_last(), i);
    }
}

} // verus!
