//! Byte-order and bit-scan utilities.

use vstd::prelude::*;
use vstd::std_specs::bits::{axiom_u32_trailing_zeros, axiom_u64_trailing_zeros, u32_trailing_zeros, u64_trailing_zeros};

verus! {

/// The value of `n` with its two bytes exchanged.
pub open spec fn swapped16(n: u16) -> u16 {
    ((n % 256) * 256 + n / 256) as u16
}

/// The value of `n` with the order of its four bytes reversed.
pub open spec fn swapped32(n: u32) -> u32 {
    ((n % 256) * 0x100_0000 + ((n / 0x100) % 256) * 0x1_0000 + ((n / 0x1_0000) % 256) * 0x100 + n
        / 0x100_0000) as u32
}

/// `r` is the smallest power of two that is at least `n`.
pub open spec fn is_next_power_of_2(n: u32, r: u32) -> bool {
    &&& r >= n
    &&& r & sub1(r) == 0
    &&& r / 2 < n
}

/// `r - 1`, wrapping at zero.
pub open spec fn sub1(r: u32) -> u32 {
    if r == 0 {
        0xffff_ffff
    } else {
        (r - 1) as u32
    }
}

/// Reverses the two bytes of `n`.
pub fn bswap16(n: u16) -> (r: u16)
    ensures
        r == swapped16(n),
{
    let r = (n >> 8) | (n & 0xFF) << 8;
    assert(((n >> 8) | (n & 0xFF) << 8) == ((n % 256) * 256 + n / 256) as u16) by (bit_vector);
    r
}

/// Reverses the four bytes of `n`.
pub fn bswap32(n: u32) -> (r: u32)
    ensures
        r == swapped32(n),
{
    let r = (n & 0xFF) << 24 | (n & 0xFF00) << 8 | (n & 0xFF0000) >> 8 | (n >> 24) & 0xFF;
    assert(((n & 0xFF) << 24 | (n & 0xFF00) << 8 | (n & 0xFF0000) >> 8 | (n >> 24) & 0xFF) == ((n
        % 256) * 0x100_0000 + ((n / 0x100) % 256) * 0x1_0000 + ((n / 0x1_0000) % 256) * 0x100 + n
        / 0x100_0000) as u32) by (bit_vector);
    r
}

/// The smallest power of two that is at least `n`; zero when `n` is zero or
/// when that power does not fit in 32 bits.
pub fn next_power_of_2(n: u32) -> (r: u32)
    ensures
        1 <= n <= 0x8000_0000 ==> is_next_power_of_2(n, r),
        n == 0 || n > 0x8000_0000 ==> r == 0,
{
    let mut v = n.wrapping_sub(1);
    let v0 = v;
    v |= v >> 1;
    v |= v >> 2;
    v |= v >> 4;
    v |= v >> 8;
    v |= v >> 16;
    let r = v.wrapping_add(1);
    proof {
        let v1 = v0 | (v0 >> 1);
        let v2 = v1 | (v1 >> 2);
        let v3 = v2 | (v2 >> 4);
        let v4 = v3 | (v3 >> 8);
        let v5 = v4 | (v4 >> 16);
        assert(v == v5);
        lemma_smear(n, v0, v5, r);
    }
    r
}

proof fn lemma_smear(n: u32, v0: u32, v5: u32, r: u32)
    requires
        v0 == (if n == 0 { 0xffff_ffffu32 } else { (n - 1) as u32 }),
        v5 == ({
            let v1 = v0 | (v0 >> 1);
            let v2 = v1 | (v1 >> 2);
            let v3 = v2 | (v2 >> 4);
            let v4 = v3 | (v3 >> 8);
            v4 | (v4 >> 16)
        }),
        r == (if v5 == 0xffff_ffffu32 { 0u32 } else { (v5 + 1) as u32 }),
    ensures
        1 <= n <= 0x8000_0000 ==> is_next_power_of_2(n, r),
        n == 0 || n > 0x8000_0000 ==> r == 0,
{
    assert((1 <= n <= 0x8000_0000 ==> r >= n && r & (if r == 0 { 0xffff_ffffu32 } else { (r - 1) as u32 }) == 0 && r / 2 < n)
        && (n == 0 || n > 0x8000_0000 ==> r == 0)) by (bit_vector)
        requires
            v0 == (if n == 0 { 0xffff_ffffu32 } else { (n - 1) as u32 }),
            v5 == ({
                let v1 = v0 | (v0 >> 1);
                let v2 = v1 | (v1 >> 2);
                let v3 = v2 | (v2 >> 4);
                let v4 = v3 | (v3 >> 8);
                v4 | (v4 >> 16)
            }),
            r == (if v5 == 0xffff_ffffu32 { 0u32 } else { (v5 + 1) as u32 }),
    ;
}

/// The entry of the 64-bit scan table at slot `h`: the bit index whose
/// isolated low-bit mask hashes to `h`.
pub open spec fn scan_table64(h: u64) -> u32 {
    if h == 0 { 0 } else if h == 1 { 47 } else if h == 2 { 1 } else if h == 3 { 56 } else
    if h == 4 { 48 } else if h == 5 { 27 } else if h == 6 { 2 } else if h == 7 { 60 } else
    if h == 8 { 57 } else if h == 9 { 49 } else if h == 10 { 41 } else if h == 11 { 37 } else
    if h == 12 { 28 } else if h == 13 { 16 } else if h == 14 { 3 } else if h == 15 { 61 } else
    if h == 16 { 54 } else if h == 17 { 58 } else if h == 18 { 35 } else if h == 19 { 52 } else
    if h == 20 { 50 } else if h == 21 { 42 } else if h == 22 { 21 } else if h == 23 { 44 } else
    if h == 24 { 38 } else if h == 25 { 32 } else if h == 26 { 29 } else if h == 27 { 23 } else
    if h == 28 { 17 } else if h == 29 { 11 } else if h == 30 { 4 } else if h == 31 { 62 } else
    if h == 32 { 46 } else if h == 33 { 55 } else if h == 34 { 26 } else if h == 35 { 59 } else
    if h == 36 { 40 } else if h == 37 { 36 } else if h == 38 { 15 } else if h == 39 { 53 } else
    if h == 40 { 34 } else if h == 41 { 51 } else if h == 42 { 20 } else if h == 43 { 43 } else
    if h == 44 { 31 } else if h == 45 { 22 } else if h == 46 { 10 } else if h == 47 { 45 } else
    if h == 48 { 25 } else if h == 49 { 39 } else if h == 50 { 14 } else if h == 51 { 33 } else
    if h == 52 { 19 } else if h == 53 { 30 } else if h == 54 { 9 } else if h == 55 { 24 } else
    if h == 56 { 13 } else if h == 57 { 18 } else if h == 58 { 8 } else if h == 59 { 12 } else
    if h == 60 { 7 } else if h == 61 { 6 } else if h == 62 { 5 } else { 63 }
}

/// The entry of the 32-bit scan table at slot `h`.
pub open spec fn scan_table32(h: u32) -> u32 {
    if h == 0 { 0 } else if h == 1 { 1 } else if h == 2 { 28 } else if h == 3 { 2 } else
    if h == 4 { 29 } else if h == 5 { 14 } else if h == 6 { 24 } else if h == 7 { 3 } else
    if h == 8 { 30 } else if h == 9 { 22 } else if h == 10 { 20 } else if h == 11 { 15 } else
    if h == 12 { 25 } else if h == 13 { 17 } else if h == 14 { 4 } else if h == 15 { 8 } else
    if h == 16 { 31 } else if h == 17 { 27 } else if h == 18 { 13 } else if h == 19 { 23 } else
    if h == 20 { 21 } else if h == 21 { 19 } else if h == 22 { 16 } else if h == 23 { 7 } else
    if h == 24 { 26 } else if h == 25 { 12 } else if h == 26 { 18 } else if h == 27 { 6 } else
    if h == 28 { 11 } else if h == 29 { 5 } else if h == 30 { 10 } else { 9 }
}

/// The index of the least significant set bit of `n`. For `n == 0` the
/// result is some table entry and carries no meaning.
pub fn find_lsb_set64(n: u64) -> (r: u32)
    ensures
        r < 64,
        n != 0 ==> r == u64_trailing_zeros(n),
{
    let magic: [u32; 64] = [
        0, 47, 1, 56, 48, 27, 2, 60,
        57, 49, 41, 37, 28, 16, 3, 61,
        54, 58, 35, 52, 50, 42, 21, 44,
        38, 32, 29, 23, 17, 11, 4, 62,
        46, 55, 26, 59, 40, 36, 15, 53,
        34, 51, 20, 43, 31, 22, 10, 45,
        25, 39, 14, 33, 19, 30, 9, 24,
        13, 18, 8, 12, 7, 6, 5, 63,
    ];
    let debruijn: u64 = 0x03F79D71B4CB0A89;
    let low = n ^ n.wrapping_sub(1);
    let h = low.wrapping_mul(debruijn) >> 58;
    proof {
        lemma_scan64(n, low, h);
        if n != 0 {
            lemma_lowest_bit64(n, scan_table64(h));
        }
    }
    magic[h as usize]
}

/// The index of the least significant set bit of `n`. For `n == 0` the
/// result is some table entry and carries no meaning.
pub fn find_lsb_set32(n: u32) -> (r: u32)
    ensures
        r < 32,
        n != 0 ==> r == u32_trailing_zeros(n),
{
    let magic: [u32; 32] = [
        0, 1, 28, 2, 29, 14, 24, 3,
        30, 22, 20, 15, 25, 17, 4, 8,
        31, 27, 13, 23, 21, 19, 16, 7,
        26, 12, 18, 6, 11, 5, 10, 9,
    ];
    let debruijn: u32 = 0x077CB531;
    let low = n & (!n).wrapping_add(1);
    let h = low.wrapping_mul(debruijn) >> 27;
    proof {
        lemma_scan32(n, low, h);
        if n != 0 {
            lemma_lowest_bit32(n, scan_table32(h));
        }
    }
    magic[h as usize]
}

proof fn lemma_scan64(n: u64, low: u64, h: u64)
    requires
        low == n ^ (if n == 0 { 0xffff_ffff_ffff_ffffu64 } else { (n - 1) as u64 }),
        h == ((low as nat * 0x03F79D71B4CB0A89u64 as nat) % 0x1_0000_0000_0000_0000nat) as u64 >> 58,
    ensures
        h < 64,
        n != 0 ==> {
            let r = scan_table64(h);
            r < 64 && (n >> r) & 1 == 1 && n << ((64 - r) as u64) == 0
        },
{
    let p = ((low as nat * 0x03F79D71B4CB0A89u64 as nat) % 0x1_0000_0000_0000_0000nat) as u64;
    assert(p == ((low * 0x03F79D71B4CB0A89u64) as u64)) by (bit_vector)
        requires
            p == ((low as nat * 0x03F79D71B4CB0A89u64 as nat) % 0x1_0000_0000_0000_0000nat) as u64,
    ;
    assert(h < 64 && (n != 0 ==> {
        let r = scan_table64(h);
        r < 64 && (n >> r) & 1 == 1 && n << ((64 - r) as u64) == 0
    })) by (bit_vector)
        requires
            low == n ^ (if n == 0 { 0xffff_ffff_ffff_ffffu64 } else { (n - 1) as u64 }),
            h == ((low * 0x03F79D71B4CB0A89u64) as u64) >> 58,
    ;
}

proof fn lemma_scan32(n: u32, low: u32, h: u32)
    requires
        low == n & (if !n == 0xffff_ffffu32 { 0u32 } else { (!n + 1) as u32 }),
        h == ((low as nat * 0x077CB531u32 as nat) % 0x1_0000_0000nat) as u32 >> 27,
    ensures
        h < 32,
        n != 0 ==> {
            let r = scan_table32(h);
            r < 32 && (n >> r) & 1 == 1 && n << ((32 - r) as u32) == 0
        },
{
    let p = ((low as nat * 0x077CB531u32 as nat) % 0x1_0000_0000nat) as u32;
    assert(p == ((low * 0x077CB531u32) as u32)) by (bit_vector)
        requires
            p == ((low as nat * 0x077CB531u32 as nat) % 0x1_0000_0000nat) as u32,
    ;
    assert(h < 32 && (n != 0 ==> {
        let r = scan_table32(h);
        r < 32 && (n >> r) & 1 == 1 && n << ((32 - r) as u32) == 0
    })) by (bit_vector)
        requires
            low == n & (if !n == 0xffff_ffffu32 { 0u32 } else { (!n + 1) as u32 }),
            h == ((low * 0x077CB531u32) as u32) >> 27,
    ;
}

/// A set bit with only zeros below it is the lowest set bit.
proof fn lemma_lowest_bit64(n: u64, r: u32)
    requires
        r < 64,
        (n >> r) & 1 == 1,
        n << ((64 - r) as u64) == 0,
    ensures
        u64_trailing_zeros(n) == r,
{
    axiom_u64_trailing_zeros(n);
    let t = u64_trailing_zeros(n);
    assert(n != 0) by (bit_vector)
        requires
            r < 64,
            (n >> r) & 1 == 1,
    ;
    let d = (64 - t) as u64;
    let e = (64 - r) as u64;
    assert(t == r) by (bit_vector)
        requires
            r < 64,
            t < 64,
            d == 64 - t,
            e == 64 - r,
            (n >> r) & 1 == 1,
            (n >> (t as u64)) & 1 == 1,
            n << e == 0,
            n << d == 0,
    ;
}

/// A set bit with only zeros below it is the lowest set bit.
proof fn lemma_lowest_bit32(n: u32, r: u32)
    requires
        r < 32,
        (n >> r) & 1 == 1,
        n << ((32 - r) as u32) == 0,
    ensures
        u32_trailing_zeros(n) == r,
{
    axiom_u32_trailing_zeros(n);
    let t = u32_trailing_zeros(n);
    assert(n != 0) by (bit_vector)
        requires
            r < 32,
            (n >> r) & 1 == 1,
    ;
    let d = (32 - t) as u32;
    let e = (32 - r) as u32;
    assert(t == r) by (bit_vector)
        requires
            r < 32,
            t < 32,
            d == 32 - t,
            e == 32 - r,
            (n >> r) & 1 == 1,
            (n >> t) & 1 == 1,
            n << e == 0,
            n << d == 0,
    ;
}

/// `u16::from_ne_bytes`: the integer whose representation in this target's
/// memory is `bytes`. The byte order of the target is not known to the
/// verifier, so the contract allows both readings.
#[verifier::external_body]
fn u16_from_native_bytes(bytes: [u8; 2]) -> (r: u16)
    ensures
        r == bytes[0] + 256 * bytes[1] || r == 256 * bytes[0] + bytes[1],
{
    u16::from_ne_bytes(bytes)
}

/// Converts `n` from the target's byte order to little-endian: the identity
/// on a little-endian target, a byte swap on a big-endian one.
pub fn native_to_le32(n: u32) -> (r: u32)
    ensures
        r == n || r == swapped32(n),
{
    to_le32_where(n, u16_from_native_bytes([1, 0]))
}

/// Converts `n` from the target's byte order to little-endian: the identity
/// on a little-endian target, a byte swap on a big-endian one.
pub fn native_to_le16(n: u16) -> (r: u16)
    ensures
        r == n || r == swapped16(n),
{
    to_le16_where(n, u16_from_native_bytes([1, 0]))
}

/// Converts `n` to little-endian for a target on which the two bytes 1, 0
/// read as the integer `probe`: `n` as it is where they read as 1, which
/// is so on a little-endian target, else `n` with its bytes reversed.
pub fn to_le32_where(n: u32, probe: u16) -> (r: u32)
    ensures
        r == (if probe == 1 {
            n
        } else {
            swapped32(n)
        }),
{
    if probe == 1 {
        n
    } else {
        bswap32(n)
    }
}

/// Converts `n` to little-endian for a target on which the two bytes 1, 0
/// read as the integer `probe`: `n` as it is where they read as 1, which
/// is so on a little-endian target, else `n` with its bytes exchanged.
pub fn to_le16_where(n: u16, probe: u16) -> (r: u16)
    ensures
        r == (if probe == 1 {
            n
        } else {
            swapped16(n)
        }),
{
    if probe == 1 {
        n
    } else {
        bswap16(n)
    }
}

} // verus!
