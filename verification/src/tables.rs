//! The sample tables of a track.
use vstd::prelude::*;
use crate::bytes::{be16, be32, be64, read_u16, read_u32, read_u64, s32, s64, to_i32, to_i64};
use crate::error::{seen, Error, Result};
use crate::track::{CslgBox, SdtpEntry, VmhdBox};

verus! {

/// `n` 32-bit numbers from byte `off` on.
pub open spec fn words(b: Seq<u8>, off: int, n: nat) -> Seq<u32> {
    Seq::new(n, |i: int| be32(b, off + 4 * i))
}

/// `n` pairs of 32-bit numbers from byte `off` on.
pub open spec fn pairs(b: Seq<u8>, off: int, n: nat) -> Seq<(u32, u32)> {
    Seq::new(n, |i: int| (be32(b, off + 8 * i), be32(b, off + 8 * i + 4)))
}

/// `n` 64-bit numbers from byte `off` on.
pub open spec fn longs(b: Seq<u8>, off: int, n: nat) -> Seq<u64> {
    Seq::new(n, |i: int| be64(b, off + 8 * i))
}

/// `n` 32-bit numbers from byte `off` on, widened.
pub open spec fn wide_words(b: Seq<u8>, off: int, n: nat) -> Seq<u64> {
    Seq::new(n, |i: int| be32(b, off + 4 * i) as u64)
}

/// Reads `n` 32-bit numbers from byte `off` on.
pub fn read_words(b: &[u8], off: usize, n: u32) -> (r: Vec<u32>)
    requires
        off + 4 * n <= b@.len(),
    ensures
        r@ == words(b@, off as int, n as nat),
{
    let len: usize = b.len();
    let mut out: Vec<u32> = Vec::new();
    let mut i: u32 = 0;
    let mut p: usize = off;
    while i < n
        invariant
            len == b@.len(),
            i <= n,
            p == off + 4 * i,
            off + 4 * n <= len,
            out@ =~= words(b@, off as int, i as nat),
        decreases n - i,
    {
        out.push(read_u32(b, p));
        p += 4;
        i += 1;
    }
    out
}

/// Reads `n` pairs of 32-bit numbers from byte `off` on.
pub fn read_pairs(b: &[u8], off: usize, n: u32) -> (r: Vec<(u32, u32)>)
    requires
        off + 8 * n <= b@.len(),
    ensures
        r@ == pairs(b@, off as int, n as nat),
{
    let len: usize = b.len();
    let mut out: Vec<(u32, u32)> = Vec::new();
    let mut i: u32 = 0;
    let mut p: usize = off;
    while i < n
        invariant
            len == b@.len(),
            i <= n,
            p == off + 8 * i,
            off + 8 * n <= len,
            out@ =~= pairs(b@, off as int, i as nat),
        decreases n - i,
    {
        out.push((read_u32(b, p), read_u32(b, p + 4)));
        p += 8;
        i += 1;
    }
    out
}

/// Reads `n` 64-bit numbers from byte `off` on.
pub fn read_longs(b: &[u8], off: usize, n: u32) -> (r: Vec<u64>)
    requires
        off + 8 * n <= b@.len(),
    ensures
        r@ == longs(b@, off as int, n as nat),
{
    let len: usize = b.len();
    let mut out: Vec<u64> = Vec::new();
    let mut i: u32 = 0;
    let mut p: usize = off;
    while i < n
        invariant
            len == b@.len(),
            i <= n,
            p == off + 8 * i,
            off + 8 * n <= len,
            out@ =~= longs(b@, off as int, i as nat),
        decreases n - i,
    {
        out.push(read_u64(b, p));
        p += 8;
        i += 1;
    }
    out
}

/// Reads `n` 32-bit numbers from byte `off` on and widens them.
pub fn read_wide_words(b: &[u8], off: usize, n: u32) -> (r: Vec<u64>)
    requires
        off + 4 * n <= b@.len(),
    ensures
        r@ == wide_words(b@, off as int, n as nat),
{
    let len: usize = b.len();
    let mut out: Vec<u64> = Vec::new();
    let mut i: u32 = 0;
    let mut p: usize = off;
    while i < n
        invariant
            len == b@.len(),
            i <= n,
            p == off + 4 * i,
            off + 4 * n <= len,
            out@ =~= wide_words(b@, off as int, i as nat),
        decreases n - i,
    {
        out.push(read_u32(b, p) as u64);
        p += 4;
        i += 1;
    }
    out
}

/// Whether `n` rows of `w` bytes fit in what follows byte `off`.
pub open spec fn fits(b: Seq<u8>, off: int, n: u32, w: int) -> bool {
    off + n * w <= b.len()
}

/// Whether `n` rows of `w` bytes fit in what follows byte `off`.
pub fn rows_fit(b: &[u8], off: usize, n: u32, w: u32) -> (r: bool)
    requires
        off <= b@.len(),
        w <= 64,
    ensures
        r == fits(b@, off as int, n, w as int),
{
    proof {
        assert(0 <= n * w <= 0xFFFF_FFFF * 64) by (nonlinear_arith)
            requires 0 <= n <= 0xFFFF_FFFF, 0 <= w <= 64;
    }
    let need: u64 = (n as u64) * (w as u64);
    need <= (b.len() - off) as u64
}

/// The content of an `stts` payload.
pub open spec fn stts_of(b: Seq<u8>) -> Result<Seq<(u32, u32)>> {
    if b.len() < 8 {
        Err(Error::invalid("MP4: stts too short"))
    } else if !fits(b, 8, be32(b, 4), 8) {
        Err(Error::invalid("MP4: stts truncated"))
    } else {
        Ok(pairs(b, 8, be32(b, 4) as nat))
    }
}

/// Parses the time-to-sample table.
pub fn parse_stts(body: &[u8]) -> (r: Result<Vec<(u32, u32)>>)
    ensures
        seen(r) == stts_of(body@),
{
    if body.len() < 8 {
        return Err(Error::invalid("MP4: stts too short"));
    }
    let count: u32 = read_u32(body, 4);
    if !rows_fit(body, 8, count, 8) {
        return Err(Error::invalid("MP4: stts truncated"));
    }
    Ok(read_pairs(body, 8, count))
}

/// The content of an `stsc` payload.
pub open spec fn stsc_of(b: Seq<u8>) -> Result<Seq<(u32, u32, u32)>> {
    if b.len() < 8 {
        Err(Error::invalid("MP4: stsc too short"))
    } else if !fits(b, 8, be32(b, 4), 12) {
        Err(Error::invalid("MP4: stsc truncated"))
    } else {
        Ok(
            Seq::new(
                be32(b, 4) as nat,
                |i: int| (be32(b, 8 + 12 * i), be32(b, 12 + 12 * i), be32(b, 16 + 12 * i)),
            ),
        )
    }
}

/// Parses the sample-to-chunk table.
pub fn parse_stsc(body: &[u8]) -> (r: Result<Vec<(u32, u32, u32)>>)
    ensures
        seen(r) == stsc_of(body@),
{
    if body.len() < 8 {
        return Err(Error::invalid("MP4: stsc too short"));
    }
    let count: u32 = read_u32(body, 4);
    if !rows_fit(body, 8, count, 12) {
        return Err(Error::invalid("MP4: stsc truncated"));
    }
    let len: usize = body.len();
    let mut out: Vec<(u32, u32, u32)> = Vec::new();
    let mut i: u32 = 0;
    let mut p: usize = 8;
    while i < count
        invariant
            len == body@.len(),
            i <= count,
            p == 8 + 12 * i,
            8 + 12 * count <= len,
            out@ =~= Seq::new(
                i as nat,
                |k: int| (be32(body@, 8 + 12 * k), be32(body@, 12 + 12 * k), be32(body@, 16 + 12 * k)),
            ),
        decreases count - i,
    {
        out.push((read_u32(body, p), read_u32(body, p + 4), read_u32(body, p + 8)));
        p += 12;
        i += 1;
    }
    Ok(out)
}

/// The content of an `stsz` payload.
pub open spec fn stsz_of(b: Seq<u8>) -> Result<Seq<u32>> {
    if b.len() < 12 {
        Err(Error::invalid("MP4: stsz too short"))
    } else if be32(b, 4) != 0 {
        Ok(Seq::new(be32(b, 8) as nat, |i: int| be32(b, 4)))
    } else if !fits(b, 12, be32(b, 8), 4) {
        Err(Error::invalid("MP4: stsz truncated"))
    } else {
        Ok(words(b, 12, be32(b, 8) as nat))
    }
}

/// Parses the sample size table: one size for all samples, or one for each.
pub fn parse_stsz(body: &[u8]) -> (r: Result<Vec<u32>>)
    ensures
        seen(r) == stsz_of(body@),
{
    if body.len() < 12 {
        return Err(Error::invalid("MP4: stsz too short"));
    }
    let uniform: u32 = read_u32(body, 4);
    let count: u32 = read_u32(body, 8);
    if uniform != 0 {
        let mut out: Vec<u32> = Vec::new();
        let mut i: u32 = 0;
        while i < count
            invariant
                i <= count,
                uniform == be32(body@, 4),
                out@ =~= Seq::new(i as nat, |k: int| be32(body@, 4)),
            decreases count - i,
        {
            out.push(uniform);
            i += 1;
        }
        return Ok(out);
    }
    if !rows_fit(body, 12, count, 4) {
        return Err(Error::invalid("MP4: stsz truncated"));
    }
    Ok(read_words(body, 12, count))
}

/// The `i`th four-bit number from byte `off` on, the high half of a byte first.
pub open spec fn nibble(b: Seq<u8>, off: int, i: int) -> u32 {
    if i % 2 == 0 { (b[off + i / 2] / 16) as u32 } else { (b[off + i / 2] % 16) as u32 }
}

/// The content of an `stz2` payload.
pub open spec fn stz2_of(b: Seq<u8>) -> Result<Seq<u32>> {
    let n = be32(b, 8);
    if b.len() < 12 {
        Err(Error::invalid("MP4: stz2 too short"))
    } else if b[7] == 4 {
        if 12 + (n + 1) / 2 > b.len() {
            Err(Error::invalid("MP4: stz2 4-bit truncated"))
        } else {
            Ok(Seq::new(n as nat, |i: int| nibble(b, 12, i)))
        }
    } else if b[7] == 8 {
        if !fits(b, 12, n, 1) {
            Err(Error::invalid("MP4: stz2 8-bit truncated"))
        } else {
            Ok(Seq::new(n as nat, |i: int| b[12 + i] as u32))
        }
    } else if b[7] == 16 {
        if !fits(b, 12, n, 2) {
            Err(Error::invalid("MP4: stz2 16-bit truncated"))
        } else {
            Ok(Seq::new(n as nat, |i: int| be16(b, 12 + 2 * i) as u32))
        }
    } else {
        Err(Error::invalid("MP4: stz2 invalid field size"))
    }
}

/// Parses the compact sample size table.
pub fn parse_stz2(body: &[u8]) -> (r: Result<Vec<u32>>)
    ensures
        seen(r) == stz2_of(body@),
{
    let len: usize = body.len();
    if len < 12 {
        return Err(Error::invalid("MP4: stz2 too short"));
    }
    let count: u32 = read_u32(body, 8);
    let mut out: Vec<u32> = Vec::new();
    let mut i: u32 = 0;
    if body[7] == 4 {
        if ((len - 12) as u64) < (count as u64 + 1) / 2 {
            return Err(Error::invalid("MP4: stz2 4-bit truncated"));
        }
        while i < count
            invariant
                len == body@.len(),
                i <= count,
                12 + (count + 1) / 2 <= len,
                out@ =~= Seq::new(i as nat, |k: int| nibble(body@, 12, k)),
            decreases count - i,
        {
            let v: u8 = body[12 + (i / 2) as usize];
            out.push(if i % 2 == 0 { (v / 16) as u32 } else { (v % 16) as u32 });
            i += 1;
        }
    } else if body[7] == 8 {
        if !rows_fit(body, 12, count, 1) {
            return Err(Error::invalid("MP4: stz2 8-bit truncated"));
        }
        while i < count
            invariant
                len == body@.len(),
                i <= count,
                12 + count <= len,
                out@ =~= Seq::new(i as nat, |k: int| body@[12 + k] as u32),
            decreases count - i,
        {
            out.push(body[12 + i as usize] as u32);
            i += 1;
        }
    } else if body[7] == 16 {
        if !rows_fit(body, 12, count, 2) {
            return Err(Error::invalid("MP4: stz2 16-bit truncated"));
        }
        while i < count
            invariant
                len == body@.len(),
                i <= count,
                12 + 2 * count <= len,
                out@ =~= Seq::new(i as nat, |k: int| be16(body@, 12 + 2 * k) as u32),
            decreases count - i,
        {
            out.push(read_u16(body, 12 + 2 * (i as usize)) as u32);
            i += 1;
        }
    } else {
        return Err(Error::invalid("MP4: stz2 invalid field size"));
    }
    Ok(out)
}

/// The content of an `stss` payload.
pub open spec fn stss_of(b: Seq<u8>) -> Result<Seq<u32>> {
    if b.len() < 8 {
        Err(Error::invalid("MP4: stss too short"))
    } else if !fits(b, 8, be32(b, 4), 4) {
        Err(Error::invalid("MP4: stss truncated"))
    } else {
        Ok(words(b, 8, be32(b, 4) as nat))
    }
}

/// Parses the sync sample table.
pub fn parse_stss(body: &[u8]) -> (r: Result<Vec<u32>>)
    ensures
        seen(r) == stss_of(body@),
{
    if body.len() < 8 {
        return Err(Error::invalid("MP4: stss too short"));
    }
    let count: u32 = read_u32(body, 4);
    if !rows_fit(body, 8, count, 4) {
        return Err(Error::invalid("MP4: stss truncated"));
    }
    Ok(read_words(body, 8, count))
}

/// The content of an `stsh` payload.
pub open spec fn stsh_of(b: Seq<u8>) -> Result<Seq<(u32, u32)>> {
    if b.len() < 8 {
        Err(Error::invalid("MP4: stsh too short"))
    } else if !fits(b, 8, be32(b, 4), 8) {
        Err(Error::invalid("MP4: stsh truncated"))
    } else {
        Ok(pairs(b, 8, be32(b, 4) as nat))
    }
}

/// Parses the shadow sync sample table.
pub fn parse_stsh(body: &[u8]) -> (r: Result<Vec<(u32, u32)>>)
    ensures
        seen(r) == stsh_of(body@),
{
    if body.len() < 8 {
        return Err(Error::invalid("MP4: stsh too short"));
    }
    let count: u32 = read_u32(body, 4);
    if !rows_fit(body, 8, count, 8) {
        return Err(Error::invalid("MP4: stsh truncated"));
    }
    Ok(read_pairs(body, 8, count))
}

/// The dependencies that a byte of an `sdtp` payload packs, two bits each.
pub open spec fn sdtp_entry(x: u8) -> SdtpEntry {
    SdtpEntry {
        is_leading: x / 64,
        sample_depends_on: x / 16 % 4,
        sample_is_depended_on: x / 4 % 4,
        sample_has_redundancy: x % 4,
    }
}

/// The content of an `sdtp` payload.
pub open spec fn sdtp_of(b: Seq<u8>) -> Result<Seq<SdtpEntry>> {
    if b.len() < 4 {
        Err(Error::invalid("MP4: sdtp too short"))
    } else {
        Ok(Seq::new((b.len() - 4) as nat, |i: int| sdtp_entry(b[4 + i])))
    }
}

/// Parses the sample dependency table: one byte for each sample.
pub fn parse_sdtp(body: &[u8]) -> (r: Result<Vec<SdtpEntry>>)
    ensures
        seen(r) == sdtp_of(body@),
{
    let len: usize = body.len();
    if len < 4 {
        return Err(Error::invalid("MP4: sdtp too short"));
    }
    let mut out: Vec<SdtpEntry> = Vec::new();
    let mut p: usize = 4;
    while p < len
        invariant
            len == body@.len(),
            4 <= p <= len,
            out@ =~= Seq::new((p - 4) as nat, |i: int| sdtp_entry(body@[4 + i])),
        decreases len - p,
    {
        let x: u8 = body[p];
        out.push(
            SdtpEntry {
                is_leading: x / 64,
                sample_depends_on: x / 16 % 4,
                sample_is_depended_on: x / 4 % 4,
                sample_has_redundancy: x % 4,
            },
        );
        p += 1;
    }
    Ok(out)
}

/// The content of an `stdp` payload.
pub open spec fn stdp_of(b: Seq<u8>) -> Result<Seq<u16>> {
    if b.len() < 4 {
        Err(Error::invalid("MP4: stdp too short"))
    } else {
        Ok(Seq::new(((b.len() - 4) / 2) as nat, |i: int| be16(b, 4 + 2 * i)))
    }
}

/// Parses the degradation priority table: two bytes for each sample; an odd last byte is left out.
pub fn parse_stdp(body: &[u8]) -> (r: Result<Vec<u16>>)
    ensures
        seen(r) == stdp_of(body@),
{
    let len: usize = body.len();
    if len < 4 {
        return Err(Error::invalid("MP4: stdp too short"));
    }
    let count: usize = (len - 4) / 2;
    let mut out: Vec<u16> = Vec::new();
    let mut i: usize = 0;
    while i < count
        invariant
            len == body@.len(),
            len >= 4,
            count == (len - 4) / 2,
            i <= count,
            out@ =~= Seq::new(i as nat, |k: int| be16(body@, 4 + 2 * k)),
        decreases count - i,
    {
        out.push(read_u16(body, 4 + 2 * i));
        i += 1;
    }
    Ok(out)
}

/// The `i`th count of padding bits: three bits of each half of a byte, the high half first.
pub open spec fn pad_at(b: Seq<u8>, i: int) -> u8 {
    if i % 2 == 0 { b[8 + i / 2] / 16 % 8 } else { b[8 + i / 2] % 8 }
}

/// The content of a `padb` payload.
pub open spec fn padb_of(b: Seq<u8>) -> Result<Seq<u8>> {
    let n = be32(b, 4);
    if b.len() < 8 {
        Err(Error::invalid("MP4: padb too short"))
    } else if b.len() < 8 + (n + 1) / 2 {
        Err(Error::invalid("MP4: padb body shorter than declared sample_count"))
    } else {
        Ok(Seq::new(n as nat, |i: int| pad_at(b, i)))
    }
}

/// Parses the padding bits table.
pub fn parse_padb(body: &[u8]) -> (r: Result<Vec<u8>>)
    ensures
        seen(r) == padb_of(body@),
{
    let len: usize = body.len();
    if len < 8 {
        return Err(Error::invalid("MP4: padb too short"));
    }
    let count: u32 = read_u32(body, 4);
    if ((len - 8) as u64) < (count as u64 + 1) / 2 {
        return Err(Error::invalid("MP4: padb body shorter than declared sample_count"));
    }
    let mut out: Vec<u8> = Vec::new();
    let mut i: u32 = 0;
    while i < count
        invariant
            len == body@.len(),
            8 + (count + 1) / 2 <= len,
            i <= count,
            out@ =~= Seq::new(i as nat, |k: int| pad_at(body@, k)),
        decreases count - i,
    {
        let x: u8 = body[8 + (i / 2) as usize];
        out.push(if i % 2 == 0 { x / 16 % 8 } else { x % 8 });
        i += 1;
    }
    Ok(out)
}

/// The content of a `ctts` payload. The offsets of version 0 are unsigned by the
/// format; they are read as two's complement all the same.
pub open spec fn ctts_of(b: Seq<u8>) -> Result<Seq<(u32, i32)>> {
    if b.len() < 8 {
        Err(Error::invalid("MP4: ctts too short"))
    } else if !fits(b, 8, be32(b, 4), 8) {
        Err(Error::invalid("MP4: ctts truncated"))
    } else {
        Ok(Seq::new(be32(b, 4) as nat, |i: int| (be32(b, 8 + 8 * i), s32(be32(b, 12 + 8 * i)))))
    }
}

/// Parses the composition offset table.
pub fn parse_ctts(body: &[u8]) -> (r: Result<Vec<(u32, i32)>>)
    ensures
        seen(r) == ctts_of(body@),
{
    if body.len() < 8 {
        return Err(Error::invalid("MP4: ctts too short"));
    }
    let count: u32 = read_u32(body, 4);
    if !rows_fit(body, 8, count, 8) {
        return Err(Error::invalid("MP4: ctts truncated"));
    }
    let len: usize = body.len();
    let mut out: Vec<(u32, i32)> = Vec::new();
    let mut i: u32 = 0;
    let mut p: usize = 8;
    while i < count
        invariant
            len == body@.len(),
            i <= count,
            p == 8 + 8 * i,
            8 + 8 * count <= len,
            out@ =~= Seq::new(i as nat, |k: int| (be32(body@, 8 + 8 * k), s32(be32(body@, 12 + 8 * k)))),
        decreases count - i,
    {
        out.push((read_u32(body, p), to_i32(read_u32(body, p + 4))));
        p += 8;
        i += 1;
    }
    Ok(out)
}

/// The signed number at byte `i` of a `cslg` payload, four bytes wide in version 0 and else eight.
pub open spec fn cslg_field(b: Seq<u8>, i: int) -> i64 {
    if b[0] == 0 { s32(be32(b, 4 + 4 * i)) as i64 } else { s64(be64(b, 4 + 8 * i)) }
}

/// The content of a `cslg` payload.
pub open spec fn cslg_of(b: Seq<u8>) -> Result<CslgBox> {
    if b.len() < 4 {
        Err(Error::invalid("MP4: cslg too short"))
    } else if b.len() < (if b[0] == 0 { 24int } else { 44int }) {
        Err(Error::invalid("MP4: cslg truncated"))
    } else {
        Ok(
            CslgBox {
                composition_to_dts_shift: cslg_field(b, 0),
                least_decode_to_display_delta: cslg_field(b, 1),
                greatest_decode_to_display_delta: cslg_field(b, 2),
                composition_start_time: cslg_field(b, 3),
                composition_end_time: cslg_field(b, 4),
            },
        )
    }
}

/// Reads the `i`th number of a `cslg` payload.
fn read_cslg_field(body: &[u8], i: usize) -> (r: i64)
    requires
        i < 5,
        body@.len() >= 4,
        body@.len() >= (if body@[0] == 0 { 24int } else { 44int }),
    ensures
        r == cslg_field(body@, i as int),
{
    if body[0] == 0 { to_i32(read_u32(body, 4 + 4 * i)) as i64 } else { to_i64(read_u64(body, 4 + 8 * i)) }
}

/// Parses the box on how composition times relate to decode times.
pub fn parse_cslg(body: &[u8]) -> (r: Result<CslgBox>)
    ensures
        r == cslg_of(body@),
{
    if body.len() < 4 {
        return Err(Error::invalid("MP4: cslg too short"));
    }
    let need: usize = if body[0] == 0 { 24 } else { 44 };
    if body.len() < need {
        return Err(Error::invalid("MP4: cslg truncated"));
    }
    Ok(
        CslgBox {
            composition_to_dts_shift: read_cslg_field(body, 0),
            least_decode_to_display_delta: read_cslg_field(body, 1),
            greatest_decode_to_display_delta: read_cslg_field(body, 2),
            composition_start_time: read_cslg_field(body, 3),
            composition_end_time: read_cslg_field(body, 4),
        },
    )
}

/// The content of an `stco` payload.
pub open spec fn stco_of(b: Seq<u8>) -> Result<Seq<u64>> {
    if b.len() < 8 {
        Err(Error::invalid("MP4: stco too short"))
    } else if !fits(b, 8, be32(b, 4), 4) {
        Err(Error::invalid("MP4: stco truncated"))
    } else {
        Ok(wide_words(b, 8, be32(b, 4) as nat))
    }
}

/// Parses the chunk offset table.
pub fn parse_stco(body: &[u8]) -> (r: Result<Vec<u64>>)
    ensures
        seen(r) == stco_of(body@),
{
    if body.len() < 8 {
        return Err(Error::invalid("MP4: stco too short"));
    }
    let count: u32 = read_u32(body, 4);
    if !rows_fit(body, 8, count, 4) {
        return Err(Error::invalid("MP4: stco truncated"));
    }
    Ok(read_wide_words(body, 8, count))
}

/// The content of a `co64` payload.
pub open spec fn co64_of(b: Seq<u8>) -> Result<Seq<u64>> {
    if b.len() < 8 {
        Err(Error::invalid("MP4: co64 too short"))
    } else if !fits(b, 8, be32(b, 4), 8) {
        Err(Error::invalid("MP4: co64 truncated"))
    } else {
        Ok(longs(b, 8, be32(b, 4) as nat))
    }
}

/// Parses the chunk offset table of large files.
pub fn parse_co64(body: &[u8]) -> (r: Result<Vec<u64>>)
    ensures
        seen(r) == co64_of(body@),
{
    if body.len() < 8 {
        return Err(Error::invalid("MP4: co64 too short"));
    }
    let count: u32 = read_u32(body, 4);
    if !rows_fit(body, 8, count, 8) {
        return Err(Error::invalid("MP4: co64 truncated"));
    }
    Ok(read_longs(body, 8, count))
}

/// The content of a `vmhd` payload.
pub open spec fn vmhd_of(b: Seq<u8>) -> Result<VmhdBox> {
    if b.len() < 12 {
        Err(Error::invalid("MP4: vmhd too short"))
    } else {
        Ok(VmhdBox { graphicsmode: be16(b, 4), opcolor: [be16(b, 6), be16(b, 8), be16(b, 10)] })
    }
}

/// Parses the video media header.
pub fn parse_vmhd(body: &[u8]) -> (r: Result<VmhdBox>)
    ensures
        r == vmhd_of(body@),
{
    if body.len() < 12 {
        return Err(Error::invalid("MP4: vmhd too short"));
    }
    Ok(
        VmhdBox {
            graphicsmode: read_u16(body, 4),
            opcolor: [read_u16(body, 6), read_u16(body, 8), read_u16(body, 10)],
        },
    )
}

}
