//! The wire format as a mathematical model: the length prefix, the tags, what
//! a stream decodes to, and what a sequence of literals and copies encodes
//! to.

use vstd::prelude::*;

verus! {

/// The longest tag, in bytes.
pub const MAX_TAG_LEN: usize = 5;

/// The shortest copy that the encoder emits.
pub const MIN_COPY_LEN: u16 = 4;

/// The longest copy that one tag can hold.
pub const MAX_COPY_LEN: u16 = 64;

/// The largest length that a literal tag can announce.
pub open spec fn max_literal_len() -> nat {
    0x1_0000_0000
}

/// Byte `i` of `s`, or zero past its end.
pub open spec fn byte_at(s: Seq<u8>, i: int) -> nat {
    if 0 <= i < s.len() {
        s[i] as nat
    } else {
        0
    }
}

/// The unsigned integer that up to four bytes spell, least significant byte
/// first.
pub open spec fn le_value(s: Seq<u8>) -> nat {
    byte_at(s, 0) + byte_at(s, 1) * 0x100 + byte_at(s, 2) * 0x1_0000 + byte_at(s, 3) * 0x100_0000
}

/// 256 to the power `i`, for the byte positions that a tag has.
pub open spec fn radix(i: int) -> nat {
    if i <= 0 {
        1
    } else if i == 1 {
        0x100
    } else if i == 2 {
        0x1_0000
    } else if i == 3 {
        0x100_0000
    } else {
        0x1_0000_0000
    }
}

/// The `count` low bytes of `v`, least significant first.
pub open spec fn le_bytes(v: nat, count: nat) -> Seq<u8> {
    Seq::new(count, |i: int| ((v / radix(i)) % 256) as u8)
}

/// How many bytes are needed to hold `v`, at least one and at most four.
pub open spec fn byte_count(v: nat) -> nat {
    if v < 0x100 {
        1
    } else if v < 0x1_0000 {
        2
    } else if v < 0x100_0000 {
        3
    } else {
        4
    }
}

// ---------------------------------------------------------------------
// The length prefix
// ---------------------------------------------------------------------
/// The varint that spells `n`: seven bits per byte, least significant group
/// first, the high bit set on every byte but the last.
pub open spec fn varint(n: nat) -> Seq<u8>
    decreases n,
{
    if n < 128 {
        seq![n as u8]
    } else {
        seq![(n % 128 + 128) as u8] + varint(n / 128)
    }
}

/// 128 to the power `i`, for the positions that a length prefix has.
pub open spec fn group_weight(i: nat) -> nat {
    if i == 0 {
        1
    } else if i == 1 {
        0x80
    } else if i == 2 {
        0x4000
    } else if i == 3 {
        0x20_0000
    } else {
        0x1000_0000
    }
}

/// What is wrong with a stream that cannot be decoded.
pub enum Fault {
    /// The stream is empty.
    PrematureEof,
    /// The stream ends inside the length prefix.
    UnterminatedLength,
    /// The length prefix spells more than 32 bits.
    LengthTooLarge,
    /// The stream ends inside a tag.
    TruncatedTag,
    /// The stream ends inside the bytes of a literal.
    TruncatedLiteral,
    /// A copy has offset zero.
    ZeroOffset,
    /// A copy reaches back past the start of the output.
    OffsetBeyondOutput,
}

impl Fault {
    /// The description that the decoder reports for this fault.
    pub open spec fn message(self) -> &'static str {
        match self {
            Fault::PrematureEof => "premature EOF",
            Fault::UnterminatedLength => "unterminated uncompressed length",
            Fault::LengthTooLarge => "uncompressed length exceeds u32::MAX",
            Fault::TruncatedTag => "EOF while reading tag",
            Fault::TruncatedLiteral => "EOF while reading literal",
            Fault::ZeroOffset => "zero-length offset",
            Fault::OffsetBeyondOutput => "offset exceeds output length",
        }
    }
}

/// A length prefix that was read: its value and how many bytes spell it.
pub struct Prefix {
    pub value: nat,
    pub size: nat,
}

/// Reads a length prefix from byte `i` of `s` on, where the bytes before it
/// have contributed `acc`.
pub open spec fn parse_length_from(s: Seq<u8>, i: nat, acc: nat) -> Result<Prefix, Fault>
    decreases 5 - i,
{
    if i >= s.len() {
        if i == 0 {
            Err(Fault::PrematureEof)
        } else {
            Err(Fault::UnterminatedLength)
        }
    } else if i >= 5 {
        Err(Fault::LengthTooLarge)
    } else {
        let v = acc + (s[i as int] % 128) as nat * group_weight(i);
        if v > u32::MAX {
            Err(Fault::LengthTooLarge)
        } else if s[i as int] < 128 {
            Ok(Prefix { value: v, size: i + 1 })
        } else {
            parse_length_from(s, i + 1, v)
        }
    }
}

/// Reads the length prefix at the front of `s`.
pub open spec fn parse_length(s: Seq<u8>) -> Result<Prefix, Fault> {
    parse_length_from(s, 0, 0)
}

// ---------------------------------------------------------------------
// Tags
// ---------------------------------------------------------------------
/// Whether a tag that starts with `c` is a literal.
pub open spec fn is_literal(c: u8) -> bool {
    c % 4 == 0
}

/// The number of bytes of the tag that starts with `c`, from one to five.
pub open spec fn tag_size(c: u8) -> nat {
    if c % 4 == 0 {
        if c / 4 < 60 {
            1
        } else {
            (c / 4 - 58) as nat
        }
    } else if c % 4 == 1 {
        2
    } else if c % 4 == 2 {
        3
    } else {
        5
    }
}

/// The number of bytes that the literal tag `tag` announces.
pub open spec fn literal_len(tag: Seq<u8>) -> nat {
    if tag.len() == 1 {
        (tag[0] / 4) as nat + 1
    } else {
        le_value(tag.skip(1)) + 1
    }
}

/// The number of bytes that the copy tag `tag` repeats.
pub open spec fn copy_len(tag: Seq<u8>) -> nat {
    if tag[0] % 4 == 1 {
        4 + ((tag[0] / 4) % 8) as nat
    } else {
        1 + (tag[0] / 4) as nat
    }
}

/// How far back the copy tag `tag` reaches.
pub open spec fn copy_offset(tag: Seq<u8>) -> nat {
    if tag[0] % 4 == 1 {
        (tag[0] / 32) as nat * 256 + tag[1] as nat
    } else {
        le_value(tag.skip(1))
    }
}

/// `out` followed by `len` bytes, each the byte `offset` places before it.
/// The bytes are taken while they are appended, so an offset below `len`
/// repeats a run.
pub open spec fn self_copy(out: Seq<u8>, offset: nat, len: nat) -> Seq<u8>
    decreases len,
{
    if len == 0 {
        out
    } else {
        self_copy(out.push(out[out.len() - offset]), offset, (len - 1) as nat)
    }
}

// ---------------------------------------------------------------------
// Decoding
// ---------------------------------------------------------------------
/// The result of decoding: the bytes produced, and what stopped the
/// decoder, if anything did.
pub struct Decoded {
    pub output: Seq<u8>,
    pub fault: Option<Fault>,
}

/// Decodes the tag stream `s` after `out` has been produced. With
/// `literal_left` above zero the decoder is inside a literal and `s` starts
/// with that many of its bytes; otherwise `s` starts with a tag.
pub open spec fn decode_from(out: Seq<u8>, literal_left: nat, s: Seq<u8>) -> Decoded
    decreases s.len(),
{
    if literal_left > 0 {
        if s.len() < literal_left {
            Decoded { output: out + s, fault: Some(Fault::TruncatedLiteral) }
        } else {
            decode_from(out + s.take(literal_left as int), 0, s.skip(literal_left as int))
        }
    } else if s.len() == 0 {
        Decoded { output: out, fault: None }
    } else if s.len() < tag_size(s[0]) {
        Decoded { output: out, fault: Some(Fault::TruncatedTag) }
    } else {
        let n = tag_size(s[0]) as int;
        let tag = s.take(n);
        let rest = s.skip(n);
        if is_literal(s[0]) {
            decode_from(out, literal_len(tag), rest)
        } else if copy_offset(tag) == 0 {
            Decoded { output: out, fault: Some(Fault::ZeroOffset) }
        } else if copy_offset(tag) > out.len() {
            Decoded { output: out, fault: Some(Fault::OffsetBeyondOutput) }
        } else {
            decode_from(self_copy(out, copy_offset(tag), copy_len(tag)), 0, rest)
        }
    }
}

/// Decodes a whole stream: the length prefix, then tags to the end.
pub open spec fn decode(s: Seq<u8>) -> Decoded {
    match parse_length(s) {
        Err(f) => Decoded { output: Seq::empty(), fault: Some(f) },
        Ok(p) => decode_from(Seq::empty(), 0, s.skip(p.size as int)),
    }
}

// ---------------------------------------------------------------------
// Encoding
// ---------------------------------------------------------------------
/// The tag, with its length bytes, that opens a literal of `len` bytes.
pub open spec fn literal_header(len: nat) -> Seq<u8> {
    let v = (len - 1) as nat;
    if v < 60 {
        seq![(v * 4) as u8]
    } else {
        seq![((59 + byte_count(v)) * 4) as u8] + le_bytes(v, byte_count(v))
    }
}

/// The encoding of the literal `bytes`.
pub open spec fn literal_bytes(bytes: Seq<u8>) -> Seq<u8> {
    literal_header(bytes.len()) + bytes
}

/// The tag of one copy of `len` bytes from `offset` back, in the shorter
/// of the two forms that the encoder writes: two bytes where the length is
/// at most 11 and the offset at most 2047, else three. The encoder never
/// reaches further back than two offset bytes can say.
pub open spec fn copy_tag(offset: nat, len: nat) -> Seq<u8> {
    if len <= 11 && offset <= 2047 {
        seq![((len - 4) * 4 + 1 + (offset / 256) * 32) as u8, (offset % 256) as u8]
    } else {
        seq![((len - 1) * 4 + 2) as u8] + le_bytes(offset, 2)
    }
}

/// The tags of a run of `len` bytes from `offset` back, which one tag may
/// not be able to hold: copies of 64 bytes as long as at least 4 bytes are
/// left behind them, then a copy of 60 bytes if more than 64 bytes are left,
/// then a copy of the rest.
pub open spec fn copy_run(offset: nat, len: nat) -> Seq<u8>
    decreases len,
{
    if len >= 68 {
        copy_tag(offset, 64) + copy_run(offset, (len - 64) as nat)
    } else if len > 64 {
        copy_tag(offset, 60) + copy_tag(offset, (len - 60) as nat)
    } else {
        copy_tag(offset, len)
    }
}

/// One unit of an encoded stream.
pub enum Element {
    /// Bytes given verbatim.
    Literal { bytes: Seq<u8> },
    /// `len` bytes repeated from `offset` bytes back in the output.
    Copy { offset: nat, len: nat },
}

impl Element {
    /// The bytes that encode this element.
    pub open spec fn encoding(self) -> Seq<u8> {
        match self {
            Element::Literal { bytes } => literal_bytes(bytes),
            Element::Copy { offset, len } => copy_tag(offset, len),
        }
    }

    /// The output after this element, where `out` was the output before it.
    pub open spec fn apply(self, out: Seq<u8>) -> Seq<u8> {
        match self {
            Element::Literal { bytes } => out + bytes,
            Element::Copy { offset, len } => self_copy(out, offset, len),
        }
    }

    /// How many bytes this element adds to the output.
    pub open spec fn span(self) -> nat {
        match self {
            Element::Literal { bytes } => bytes.len(),
            Element::Copy { offset, len } => len,
        }
    }

    /// Whether the encoder may emit this element once `produced` bytes of
    /// output precede it: a literal is not empty, a copy holds 4 to 64 bytes
    /// and reaches back at least one byte and no further than the output
    /// goes, nor than two offset bytes can say.
    pub open spec fn valid(self, produced: nat) -> bool {
        match self {
            Element::Literal { bytes } => 1 <= bytes.len() <= max_literal_len(),
            Element::Copy { offset, len } => {
                &&& MIN_COPY_LEN <= len <= MAX_COPY_LEN
                &&& 1 <= offset <= produced
                &&& offset <= 0xFFFF
            },
        }
    }
}

/// The encodings of `es`, one after the other.
pub open spec fn encode_all(es: Seq<Element>) -> Seq<u8>
    decreases es.len(),
{
    if es.len() == 0 {
        Seq::empty()
    } else {
        encode_all(es.drop_last()) + es.last().encoding()
    }
}

/// The output after all of `es`, where `out` was the output before them.
pub open spec fn apply_all(out: Seq<u8>, es: Seq<Element>) -> Seq<u8>
    decreases es.len(),
{
    if es.len() == 0 {
        out
    } else {
        es.last().apply(apply_all(out, es.drop_last()))
    }
}

/// How many bytes all of `es` add to the output.
pub open spec fn span_all(es: Seq<Element>) -> nat
    decreases es.len(),
{
    if es.len() == 0 {
        0
    } else {
        span_all(es.drop_last()) + es.last().span()
    }
}

/// Whether every element of `es` is valid where it stands, with `produced`
/// bytes of output before the first.
pub open spec fn all_valid(produced: nat, es: Seq<Element>) -> bool
    decreases es.len(),
{
    if es.len() == 0 {
        true
    } else {
        all_valid(produced, es.drop_last()) && es.last().valid(
            produced + span_all(es.drop_last()),
        )
    }
}

/// Whether `enc` is a sequence of tags, each one that the encoder may emit,
/// that reproduces `data` from nothing: no copy reaches back before the
/// first byte of `data`.
pub open spec fn encodes(enc: Seq<u8>, data: Seq<u8>) -> bool {
    exists|es: Seq<Element>|
        #![auto]
        enc == encode_all(es) && all_valid(0, es) && apply_all(Seq::empty(), es) == data
}

/// Whether `stream` is a complete encoding of `data`: the length of `data`
/// as a varint, then tags that reproduce `data`.
pub open spec fn is_stream_of(stream: Seq<u8>, data: Seq<u8>) -> bool {
    let head = varint(data.len());
    &&& data.len() <= u32::MAX
    &&& head.len() <= stream.len()
    &&& stream.take(head.len() as int) == head
    &&& encodes(stream.skip(head.len() as int), data)
}

} // verus!
