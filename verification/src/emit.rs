//! Writing the wire format: the length prefix, literals and copies.

use crate::stream::ByteSink;
use crate::wire::{
    copy_run, copy_tag, le_bytes, literal_bytes, literal_header, max_literal_len, varint,
    MAX_COPY_LEN, MIN_COPY_LEN,
};
use vstd::prelude::*;

verus! {

/// Writes `n` as a varint.
pub fn write_varint<W: ByteSink>(out: &mut W, n: u32) -> (r: Result<(), std::io::Error>)
    ensures
        final(out).dependable() == old(out).dependable(),
        old(out).dependable() ==> r is Ok,
        r is Ok ==> final(out).written() == old(out).written() + varint(n as nat),
{
    let mut ds: [u8; 5] = [0, 0, 0, 0, 0];
    let nbytes: usize = if n < 0x80 {
        ds[0] = n as u8;
        1
    } else if n < 0x4000 {
        ds[0] = (n % 128 + 128) as u8;
        ds[1] = (n / 0x80) as u8;
        2
    } else if n < 0x20_0000 {
        ds[0] = (n % 128 + 128) as u8;
        ds[1] = ((n / 0x80) % 128 + 128) as u8;
        ds[2] = (n / 0x4000) as u8;
        3
    } else if n < 0x1000_0000 {
        ds[0] = (n % 128 + 128) as u8;
        ds[1] = ((n / 0x80) % 128 + 128) as u8;
        ds[2] = ((n / 0x4000) % 128 + 128) as u8;
        ds[3] = (n / 0x20_0000) as u8;
        4
    } else {
        ds[0] = (n % 128 + 128) as u8;
        ds[1] = ((n / 0x80) % 128 + 128) as u8;
        ds[2] = ((n / 0x4000) % 128 + 128) as u8;
        ds[3] = ((n / 0x20_0000) % 128 + 128) as u8;
        ds[4] = (n / 0x1000_0000) as u8;
        5
    };
    proof {
        reveal_with_fuel(varint, 5);
        assert(ds@.subrange(0, nbytes as int) =~= varint(n as nat));
    }
    out.write_all(&ds[0..nbytes])
}

/// Writes `n` as two bytes, the low byte first.
pub fn write_u16_le<W: ByteSink>(out: &mut W, n: u16) -> (r: Result<(), std::io::Error>)
    ensures
        final(out).dependable() == old(out).dependable(),
        old(out).dependable() ==> r is Ok,
        r is Ok ==> final(out).written() == old(out).written() + le_bytes(n as nat, 2),
{
    let ds: [u8; 2] = [(n % 256) as u8, (n / 256) as u8];
    proof {
        assert(ds@ =~= le_bytes(n as nat, 2));
        assert(ds@.subrange(0, 2) =~= ds@);
    }
    out.write_all(&ds[0..2])
}

/// Writes `literal` as one literal: the tag, the bytes of its length if the
/// tag cannot hold it, then the bytes themselves.
pub fn emit_literal<W: ByteSink>(out: &mut W, literal: &[u8]) -> (r: Result<(), std::io::Error>)
    requires
        1 <= literal@.len() <= max_literal_len(),
    ensures
        final(out).dependable() == old(out).dependable(),
        old(out).dependable() ==> r is Ok,
        r is Ok ==> final(out).written() == old(out).written() + literal_bytes(literal@),
{
    let len = literal.len() - 1;
    let mut ds: [u8; 5] = [0, 0, 0, 0, 0];
    let count: usize = if len < 60 {
        ds[0] = (len * 4) as u8;
        0
    } else if len < 0x100 {
        ds[0] = 240;
        ds[1] = len as u8;
        1
    } else if len < 0x1_0000 {
        ds[0] = 244;
        ds[1] = (len % 256) as u8;
        ds[2] = (len / 0x100) as u8;
        2
    } else if len < 0x100_0000 {
        ds[0] = 248;
        ds[1] = (len % 256) as u8;
        ds[2] = ((len / 0x100) % 256) as u8;
        ds[3] = (len / 0x1_0000) as u8;
        3
    } else {
        ds[0] = 252;
        ds[1] = (len % 256) as u8;
        ds[2] = ((len / 0x100) % 256) as u8;
        ds[3] = ((len / 0x1_0000) % 256) as u8;
        ds[4] = (len / 0x100_0000) as u8;
        4
    };
    proof {
        assert(ds@.subrange(0, count + 1) =~= literal_header(literal@.len()));
    }
    match out.write_all(&ds[0..count + 1]) {
        Err(e) => Err(e),
        Ok(()) => {
            let r = out.write_all(literal);
            proof {
                assert(old(out).written() + literal_header(literal@.len()) + literal@ =~= old(
                    out,
                ).written() + literal_bytes(literal@));
            }
            r
        },
    }
}

/// Writes one copy tag: two bytes where the length and the offset are small
/// enough, else three.
pub fn do_emit_copy<W: ByteSink>(out: &mut W, offset: u16, len: u16) -> (r: Result<
    (),
    std::io::Error,
>)
    requires
        MIN_COPY_LEN <= len <= MAX_COPY_LEN,
    ensures
        final(out).dependable() == old(out).dependable(),
        old(out).dependable() ==> r is Ok,
        r is Ok ==> final(out).written() == old(out).written() + copy_tag(offset as nat, len as nat),
{
    if len <= 11 && offset <= 2047 {
        let tag = ((len - 4) * 4 + 1 + (offset / 256) * 32) as u8;
        let ds: [u8; 2] = [tag, (offset % 256) as u8];
        proof {
            assert(ds@.subrange(0, 2) =~= copy_tag(offset as nat, len as nat));
        }
        out.write_all(&ds[0..2])
    } else {
        let ds: [u8; 1] = [((len - 1) * 4 + 2) as u8];
        proof {
            assert(ds@.subrange(0, 1) =~= seq![((len - 1) * 4 + 2) as u8]);
        }
        match out.write_all(&ds[0..1]) {
            Err(e) => Err(e),
            Ok(()) => {
                let r = write_u16_le(out, offset);
                proof {
                    assert(old(out).written() + seq![((len - 1) * 4 + 2) as u8] + le_bytes(
                        offset as nat,
                        2,
                    ) =~= old(out).written() + copy_tag(offset as nat, len as nat));
                }
                r
            },
        }
    }
}

/// Writes a copy of any length of at least four bytes, as several tags
/// where one cannot hold it.
pub fn emit_copy<W: ByteSink>(out: &mut W, offset: u16, len: u16) -> (r: Result<(), std::io::Error>)
    requires
        len >= MIN_COPY_LEN,
    ensures
        final(out).dependable() == old(out).dependable(),
        old(out).dependable() ==> r is Ok,
        r is Ok ==> final(out).written() == old(out).written() + copy_run(offset as nat, len as nat),
{
    let mut remaining = len;
    while remaining >= MAX_COPY_LEN + MIN_COPY_LEN
        invariant
            remaining >= MIN_COPY_LEN,
            out.dependable() == old(out).dependable(),
            out.written() + copy_run(offset as nat, remaining as nat) == old(out).written()
                + copy_run(offset as nat, len as nat),
        decreases remaining,
    {
        let ghost before = out.written();
        match do_emit_copy(out, offset, MAX_COPY_LEN) {
            Err(e) => {
                return Err(e);
            },
            Ok(()) => {},
        }
        proof {
            assert(before + copy_run(offset as nat, remaining as nat) =~= (before + copy_tag(
                offset as nat,
                64,
            )) + copy_run(offset as nat, (remaining - 64) as nat));
        }
        remaining -= MAX_COPY_LEN;
    }
    if remaining > MAX_COPY_LEN {
        let to_emit = MAX_COPY_LEN - MIN_COPY_LEN;
        let ghost before = out.written();
        match do_emit_copy(out, offset, to_emit) {
            Err(e) => {
                return Err(e);
            },
            Ok(()) => {},
        }
        proof {
            assert(before + copy_run(offset as nat, remaining as nat) =~= (before + copy_tag(
                offset as nat,
                60,
            )) + copy_run(offset as nat, (remaining - 60) as nat));
        }
        remaining -= to_emit;
    }
    do_emit_copy(out, offset, remaining)
}

} // verus!
