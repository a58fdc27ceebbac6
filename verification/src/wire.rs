//! Fixed-width integers as they lie in a buffer: two bytes, least
//! significant byte first; signed values in two's complement.
use vstd::prelude::*;

verus! {

/// Number of bytes that a 16-bit field occupies.
pub const FIELD_SIZE: usize = 2;

/// Largest value of an unsigned 16-bit field.
pub const FIELD_MAX: usize = 65535;

/// The two bytes that encode the unsigned value `n`.
pub open spec fn u16_le(n: int) -> Seq<u8> {
    seq![(n % 256) as u8, (n / 256) as u8]
}

/// The unsigned value that the first two bytes of `bytes` encode.
pub open spec fn u16_from_le(bytes: Seq<u8>) -> int {
    bytes[0] as int + 256 * (bytes[1] as int)
}

/// The two bytes that encode the signed value `d`.
pub open spec fn i16_le(d: int) -> Seq<u8> {
    u16_le(if d < 0 { d + 65536 } else { d })
}

/// The signed value that the first two bytes of `bytes` encode.
pub open spec fn i16_from_le(bytes: Seq<u8>) -> int {
    let u = u16_from_le(bytes);
    if u >= 32768 { u - 65536 } else { u }
}

/// Decoding an encoded unsigned value gives the value back.
pub proof fn lemma_u16_round_trip(n: int)
    requires
        0 <= n <= 65535,
    ensures
        u16_le(n).len() == 2,
        u16_from_le(u16_le(n)) == n,
{
}

/// Encoding a decoded pair of bytes gives the two bytes back, and the
/// decoded value fits the field.
pub proof fn lemma_u16_bytes_round_trip(bytes: Seq<u8>)
    requires
        bytes.len() == 2,
    ensures
        0 <= u16_from_le(bytes) <= 65535,
        u16_le(u16_from_le(bytes)) == bytes,
{
    assert(u16_le(u16_from_le(bytes)) =~= bytes);
}

/// Decoding an encoded signed value gives the value back.
pub proof fn lemma_i16_round_trip(d: int)
    requires
        -32768 <= d <= 32767,
    ensures
        i16_le(d).len() == 2,
        i16_from_le(i16_le(d)) == d,
{
}

/// Reads the unsigned 16-bit field at the start of `bytes`.
pub fn read_u16(bytes: &[u8]) -> (n: u16)
    requires
        bytes@.len() >= 2,
    ensures
        n == u16_from_le(bytes@),
{
    let lo: u16 = bytes[0] as u16;
    let hi: u16 = bytes[1] as u16;
    lo + 256 * hi
}

/// Writes `n` into the unsigned 16-bit field at the start of `bytes`.
pub fn write_u16(bytes: &mut [u8], n: u16)
    requires
        old(bytes)@.len() >= 2,
    ensures
        final(bytes)@.len() == old(bytes)@.len(),
        final(bytes)@.subrange(0, 2) == u16_le(n as int),
        final(bytes)@.subrange(2, old(bytes)@.len() as int) == old(bytes)@.subrange(
            2,
            old(bytes)@.len() as int,
        ),
{
    bytes[0] = (n % 256) as u8;
    bytes[1] = (n / 256) as u8;
    assert(bytes@.subrange(0, 2) =~= u16_le(n as int));
    assert(bytes@.subrange(2, old(bytes)@.len() as int) =~= old(bytes)@.subrange(
        2,
        old(bytes)@.len() as int,
    ));
}

/// Reads the signed 16-bit field at the start of `bytes`.
pub fn read_i16(bytes: &[u8]) -> (d: i16)
    requires
        bytes@.len() >= 2,
    ensures
        d == i16_from_le(bytes@),
{
    let u: u16 = read_u16(bytes);
    if u >= 32768 {
        let v: i32 = u as i32 - 65536;
        v as i16
    } else {
        u as i16
    }
}

/// Writes `d` into the signed 16-bit field at the start of `bytes`.
pub fn write_i16(bytes: &mut [u8], d: i16)
    requires
        old(bytes)@.len() >= 2,
    ensures
        final(bytes)@.len() == old(bytes)@.len(),
        final(bytes)@.subrange(0, 2) == i16_le(d as int),
        final(bytes)@.subrange(2, old(bytes)@.len() as int) == old(bytes)@.subrange(
            2,
            old(bytes)@.len() as int,
        ),
{
    let u: u16 = if d < 0 {
        let v: i32 = d as i32 + 65536;
        v as u16
    } else {
        d as u16
    };
    write_u16(bytes, u);
}

/// Copies `src` into `dst`, starting at offset `at`.
pub fn copy_into(dst: &mut [u8], at: usize, src: &[u8])
    requires
        at + src@.len() <= old(dst)@.len(),
    ensures
        final(dst)@ == old(dst)@.subrange(0, at as int) + src@ + old(dst)@.subrange(
            at + src@.len(),
            old(dst)@.len() as int,
        ),
{
    let n = src.len();
    let total = dst.len();
    let mut i: usize = 0;
    while i < n
        invariant
            i <= n,
            n == src@.len(),
            at + n <= total,
            dst@.len() == total,
            dst@.len() == old(dst)@.len(),
            forall|k: int| 0 <= k < i ==> dst@[at + k] == src@[k],
            forall|k: int| 0 <= k < at ==> dst@[k] == old(dst)@[k],
            forall|k: int| at + n <= k < dst@.len() ==> dst@[k] == old(dst)@[k],
        decreases n - i,
    {
        dst[at + i] = src[i];
        i = i + 1;
    }
    assert(dst@ =~= old(dst)@.subrange(0, at as int) + src@ + old(dst)@.subrange(
        at + src@.len(),
        old(dst)@.len() as int,
    ));
}

} // verus!
