//! Big-endian numbers in byte strings.
use vstd::prelude::*;

verus! {

/// The big-endian 16-bit number at byte `i`.
#[verifier::opaque]
pub open spec fn be16(b: Seq<u8>, i: int) -> u16 {
    (b[i] as int * 0x100 + b[i + 1] as int) as u16
}

/// The big-endian 24-bit number at byte `i`.
#[verifier::opaque]
pub open spec fn be24(b: Seq<u8>, i: int) -> u32 {
    (b[i] as int * 0x1_0000 + b[i + 1] as int * 0x100 + b[i + 2] as int) as u32
}

/// The big-endian 32-bit number at byte `i`.
#[verifier::opaque]
pub open spec fn be32(b: Seq<u8>, i: int) -> u32 {
    (b[i] as int * 0x100_0000 + b[i + 1] as int * 0x1_0000 + b[i + 2] as int * 0x100 + b[i + 3] as int) as u32
}

/// The big-endian 64-bit number at byte `i`.
#[verifier::opaque]
pub open spec fn be64(b: Seq<u8>, i: int) -> u64 {
    (be32(b, i) as int * 0x1_0000_0000 + be32(b, i + 4) as int) as u64
}

/// The number of a 16-bit two's complement pattern.
pub open spec fn s16(x: u16) -> i16 {
    if x < 0x8000 { x as i16 } else { (x - 0x1_0000) as i16 }
}

/// The number of a 32-bit two's complement pattern.
pub open spec fn s32(x: u32) -> i32 {
    if x < 0x8000_0000 { x as i32 } else { (x - 0x1_0000_0000) as i32 }
}

/// The number of a 64-bit two's complement pattern.
pub open spec fn s64(x: u64) -> i64 {
    if x < 0x8000_0000_0000_0000 { x as i64 } else { (x - 0x1_0000_0000_0000_0000) as i64 }
}

/// The four bytes at byte `i`, as a code.
pub open spec fn code_at(b: Seq<u8>, i: int) -> [u8; 4] {
    [b[i], b[i + 1], b[i + 2], b[i + 3]]
}

/// The four bytes of a 32-bit number, big-endian.
pub open spec fn enc32(v: u32) -> Seq<u8> {
    seq![(v / 0x100_0000) as u8, (v / 0x1_0000 % 0x100) as u8, (v / 0x100 % 0x100) as u8, (v % 0x100) as u8]
}

/// The three bytes of a 24-bit number, big-endian.
pub open spec fn enc24(v: u32) -> Seq<u8> {
    seq![(v / 0x1_0000 % 0x100) as u8, (v / 0x100 % 0x100) as u8, (v % 0x100) as u8]
}

/// The eight bytes of a 64-bit number, big-endian.
pub open spec fn enc64(v: u64) -> Seq<u8> {
    enc32((v / 0x1_0000_0000) as u32) + enc32((v % 0x1_0000_0000) as u32)
}

/// The two's complement pattern of a 32-bit number.
pub open spec fn u32_of(x: i32) -> u32 {
    if x >= 0 { x as u32 } else { (x + 0x1_0000_0000) as u32 }
}

/// Reads a big-endian 16-bit number.
pub fn read_u16(b: &[u8], i: usize) -> (r: u16)
    requires
        i + 2 <= b@.len(),
    ensures
        r == be16(b@, i as int),
{
    proof { reveal(be16); }
    (b[i] as u16) * 0x100 + (b[i + 1] as u16)
}

/// Reads a big-endian 24-bit number.
pub fn read_u24(b: &[u8], i: usize) -> (r: u32)
    requires
        i + 3 <= b@.len(),
    ensures
        r == be24(b@, i as int),
        r < 0x100_0000,
{
    proof { reveal(be24); }
    (b[i] as u32) * 0x1_0000 + (b[i + 1] as u32) * 0x100 + (b[i + 2] as u32)
}

/// Reads a big-endian 32-bit number.
pub fn read_u32(b: &[u8], i: usize) -> (r: u32)
    requires
        i + 4 <= b@.len(),
    ensures
        r == be32(b@, i as int),
{
    proof { reveal(be32); }
    (b[i] as u32) * 0x100_0000 + (b[i + 1] as u32) * 0x1_0000 + (b[i + 2] as u32) * 0x100 + (b[i + 3] as u32)
}

/// Reads a big-endian 64-bit number.
pub fn read_u64(b: &[u8], i: usize) -> (r: u64)
    requires
        i + 8 <= b@.len(),
    ensures
        r == be64(b@, i as int),
{
    proof { reveal(be64); }
    let n: usize = b.len();
    assert(i + 8 <= n);
    (read_u32(b, i) as u64) * 0x1_0000_0000 + (read_u32(b, i + 4) as u64)
}

/// Takes a 16-bit pattern as a signed number.
pub fn to_i16(x: u16) -> (r: i16)
    ensures
        r == s16(x),
{
    if x < 0x8000 { x as i16 } else { (x as i32 - 0x1_0000) as i16 }
}

/// Takes a 32-bit pattern as a signed number.
pub fn to_i32(x: u32) -> (r: i32)
    ensures
        r == s32(x),
{
    if x < 0x8000_0000 { x as i32 } else { (x as i64 - 0x1_0000_0000) as i32 }
}

/// Takes a 64-bit pattern as a signed number.
pub fn to_i64(x: u64) -> (r: i64)
    ensures
        r == s64(x),
{
    if x < 0x8000_0000_0000_0000 { x as i64 } else { (x as i128 - 0x1_0000_0000_0000_0000) as i64 }
}

/// Takes a signed number as a 32-bit pattern.
pub fn of_i32(x: i32) -> (r: u32)
    ensures
        r == u32_of(x),
{
    if x >= 0 { x as u32 } else { (x as i64 + 0x1_0000_0000) as u32 }
}

/// Reads a four-character code.
pub fn read_code(b: &[u8], i: usize) -> (r: [u8; 4])
    requires
        i + 4 <= b@.len(),
    ensures
        r == code_at(b@, i as int),
{
    [b[i], b[i + 1], b[i + 2], b[i + 3]]
}

/// Appends a byte string.
pub fn push_bytes(out: &mut Vec<u8>, b: &[u8])
    ensures
        final(out)@ == old(out)@ + b@,
{
    let mut k: usize = 0;
    let ghost start = out@;
    while k < b.len()
        invariant
            k <= b@.len(),
            out@ =~= start + b@.subrange(0, k as int),
        decreases b@.len() - k,
    {
        out.push(b[k]);
        k += 1;
    }
    proof { assert(out@ =~= start + b@); }
}

/// A copy of a byte string.
pub fn copy_bytes(b: &[u8]) -> (r: Vec<u8>)
    ensures
        r@ == b@,
{
    let mut out: Vec<u8> = Vec::new();
    push_bytes(&mut out, b);
    proof { assert(out@ =~= b@); }
    out
}

/// Appends a big-endian 24-bit number.
pub fn push_u24(out: &mut Vec<u8>, v: u32)
    ensures
        final(out)@ == old(out)@ + enc24(v),
{
    out.push((v / 0x1_0000 % 0x100) as u8);
    out.push((v / 0x100 % 0x100) as u8);
    out.push((v % 0x100) as u8);
    proof { assert(out@ =~= old(out)@ + enc24(v)); }
}

/// Appends a big-endian 32-bit number.
pub fn push_u32(out: &mut Vec<u8>, v: u32)
    ensures
        final(out)@ == old(out)@ + enc32(v),
{
    out.push((v / 0x100_0000) as u8);
    out.push((v / 0x1_0000 % 0x100) as u8);
    out.push((v / 0x100 % 0x100) as u8);
    out.push((v % 0x100) as u8);
    proof { assert(out@ =~= old(out)@ + enc32(v)); }
}

/// Appends a big-endian 64-bit number.
pub fn push_u64(out: &mut Vec<u8>, v: u64)
    ensures
        final(out)@ == old(out)@ + enc64(v),
{
    push_u32(out, (v / 0x1_0000_0000) as u32);
    push_u32(out, (v % 0x1_0000_0000) as u32);
    proof { assert(out@ =~= old(out)@ + enc64(v)); }
}

/// Appends a four-character code.
pub fn push_code(out: &mut Vec<u8>, c: [u8; 4])
    ensures
        final(out)@ == old(out)@ + c@,
{
    out.push(c[0]);
    out.push(c[1]);
    out.push(c[2]);
    out.push(c[3]);
    proof { assert(out@ =~= old(out)@ + c@); }
}

/// A 24-bit number is read back as it was written.
pub proof fn law_enc24_be24(v: u32, b: Seq<u8>, i: int)
    requires
        0 <= i,
        i + 3 <= b.len(),
        v < 0x100_0000,
        b.subrange(i, i + 3) == enc24(v),
    ensures
        be24(b, i) == v,
{
    reveal(be24);
    let s = b.subrange(i, i + 3);
    assert(s[0] == b[i] && s[1] == b[i + 1] && s[2] == b[i + 2]);
}

/// A 32-bit number is read back as it was written.
pub proof fn law_enc32_be32(v: u32, b: Seq<u8>, i: int)
    requires
        0 <= i,
        i + 4 <= b.len(),
        b.subrange(i, i + 4) == enc32(v),
    ensures
        be32(b, i) == v,
{
    reveal(be32);
    let s = b.subrange(i, i + 4);
    assert(s[0] == b[i] && s[1] == b[i + 1] && s[2] == b[i + 2] && s[3] == b[i + 3]);
}

/// A 64-bit number is read back as it was written.
pub proof fn law_enc64_be64(v: u64, b: Seq<u8>, i: int)
    requires
        0 <= i,
        i + 8 <= b.len(),
        b.subrange(i, i + 8) == enc64(v),
    ensures
        be64(b, i) == v,
{
    reveal(be64);
    let s = b.subrange(i, i + 8);
    assert(b.subrange(i, i + 4) =~= enc32((v / 0x1_0000_0000) as u32)) by {
        assert forall|k: int| 0 <= k < 4 implies b[i + k] == #[trigger] enc32((v / 0x1_0000_0000) as u32)[k] by {
            assert(s[k] == b[i + k]);
        }
    }
    assert(b.subrange(i + 4, i + 8) =~= enc32((v % 0x1_0000_0000) as u32)) by {
        assert forall|k: int| 0 <= k < 4 implies b[i + 4 + k] == #[trigger] enc32((v % 0x1_0000_0000) as u32)[k] by {
            assert(s[4 + k] == b[i + 4 + k]);
        }
    }
    law_enc32_be32((v / 0x1_0000_0000) as u32, b, i);
    law_enc32_be32((v % 0x1_0000_0000) as u32, b, i + 4);
}

}
