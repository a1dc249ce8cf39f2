//! Sample groups: which samples belong to which group, and what describes it.
use vstd::prelude::*;
use vstd::arithmetic::power2::{lemma2_to64, lemma_pow2_strictly_increases, lemma_pow2_unfold, pow2};
use crate::boxes::{items, lemma_views_push, views};
use crate::bytes::{be32, code_at, copy_bytes, read_code, read_u32};
use crate::error::{seen, Error, Result};
use crate::tables::{fits, pairs, read_pairs, rows_fit};
use crate::track::{
    CsgpBox, CsgpModel, CsgpPattern, CsgpPatternModel, SbgpBox, SbgpModel, SgpdBox, SgpdModel,
};

verus! {

/// Where the entry count of an `sbgp` payload stands.
pub open spec fn sbgp_count_pos(b: Seq<u8>) -> int {
    if b[0] == 1 { 12 } else { 8 }
}

/// The content of an `sbgp` payload.
pub open spec fn sbgp_of(b: Seq<u8>) -> Result<SbgpModel> {
    let p = sbgp_count_pos(b);
    if b.len() < 4 {
        Err(Error::invalid("MP4: sbgp too short"))
    } else if b.len() < 8 {
        Err(Error::invalid("MP4: sbgp grouping_type truncated"))
    } else if b[0] == 1 && b.len() < 12 {
        Err(Error::invalid("MP4: sbgp grouping_type_parameter truncated"))
    } else if b.len() < p + 4 {
        Err(Error::invalid("MP4: sbgp entry_count truncated"))
    } else if !fits(b, p + 4, be32(b, p), 8) {
        Err(Error::invalid("MP4: sbgp entries truncated"))
    } else {
        Ok(
            SbgpModel {
                grouping_type: code_at(b, 4),
                grouping_type_parameter: if b[0] == 1 { Some(be32(b, 8)) } else { None },
                entries: pairs(b, p + 4, be32(b, p) as nat),
            },
        )
    }
}

/// Parses the sample-to-group table.
pub fn parse_sbgp(body: &[u8]) -> (r: Result<SbgpBox>)
    ensures
        seen(r) == sbgp_of(body@),
{
    let len: usize = body.len();
    if len < 4 {
        return Err(Error::invalid("MP4: sbgp too short"));
    }
    if len < 8 {
        return Err(Error::invalid("MP4: sbgp grouping_type truncated"));
    }
    let grouping_type = read_code(body, 4);
    let mut grouping_type_parameter: Option<u32> = None;
    let mut p: usize = 8;
    if body[0] == 1 {
        if len < 12 {
            return Err(Error::invalid("MP4: sbgp grouping_type_parameter truncated"));
        }
        grouping_type_parameter = Some(read_u32(body, 8));
        p = 12;
    }
    if len < p + 4 {
        return Err(Error::invalid("MP4: sbgp entry_count truncated"));
    }
    let count: u32 = read_u32(body, p);
    if !rows_fit(body, p + 4, count, 8) {
        return Err(Error::invalid("MP4: sbgp entries truncated"));
    }
    let entries = read_pairs(body, p + 4, count);
    Ok(SbgpBox { grouping_type, grouping_type_parameter, entries })
}

/// Where the entry count of an `sgpd` payload stands.
pub open spec fn sgpd_count_pos(b: Seq<u8>) -> int {
    if b[0] == 0 { 8 } else { 12 }
}

/// A description of its own length at byte `off`.
pub open spec fn sgpd_entry_at(b: Seq<u8>, off: int) -> Result<(Seq<u8>, int)> {
    let n = be32(b, off);
    if b.len() < off + 4 {
        Err(Error::invalid("MP4: sgpd description_length truncated"))
    } else if b.len() < off + 4 + n {
        Err(Error::invalid("MP4: sgpd variable entry truncated"))
    } else {
        Ok((b.subrange(off + 4, off + 4 + n), off + 4 + n))
    }
}

/// `n` descriptions of their own length from byte `off` on, behind those in `acc`.
pub open spec fn sgpd_entries(b: Seq<u8>, off: int, n: nat, acc: Seq<Seq<u8>>) -> Result<(Seq<Seq<u8>>, int)> {
    items(b, off, n, acc, |b: Seq<u8>, off: int| sgpd_entry_at(b, off))
}

/// `n` descriptions of `w` bytes each from byte `off` on.
pub open spec fn slots(b: Seq<u8>, off: int, n: nat, w: int) -> Seq<Seq<u8>> {
    Seq::new(n, |i: int| b.subrange(off + w * i, off + w * i + w))
}

/// The descriptions in an `sgpd` payload. Version 1 gives the length of all of them or
/// of each; in other versions the lengths are not known and all of them are one.
pub open spec fn sgpd_descriptions(b: Seq<u8>) -> Result<Seq<Seq<u8>>> {
    let p = sgpd_count_pos(b);
    let count = be32(b, p);
    if b[0] == 1 && be32(b, 8) == 0 {
        match sgpd_entries(b, p + 4, count as nat, Seq::empty()) {
            Err(e) => Err(e),
            Ok((entries, _)) => Ok(entries),
        }
    } else if b[0] == 1 {
        if !fits(b, p + 4, count, be32(b, 8) as int) {
            Err(Error::invalid("MP4: sgpd fixed entry truncated"))
        } else {
            Ok(slots(b, p + 4, count as nat, be32(b, 8) as int))
        }
    } else if count > 0 && p + 4 < b.len() {
        Ok(seq![b.subrange(p + 4, b.len() as int)])
    } else {
        Ok(Seq::empty())
    }
}

/// The content of an `sgpd` payload.
pub open spec fn sgpd_of(b: Seq<u8>) -> Result<SgpdModel> {
    if b.len() < 4 {
        Err(Error::invalid("MP4: sgpd too short"))
    } else if b.len() < 8 {
        Err(Error::invalid("MP4: sgpd grouping_type truncated"))
    } else if b[0] == 1 && b.len() < 12 {
        Err(Error::invalid("MP4: sgpd default_length truncated"))
    } else if b[0] >= 2 && b.len() < 12 {
        Err(Error::invalid("MP4: sgpd default_sample_description_index truncated"))
    } else if b.len() < sgpd_count_pos(b) + 4 {
        Err(Error::invalid("MP4: sgpd entry_count truncated"))
    } else {
        match sgpd_descriptions(b) {
            Err(e) => Err(e),
            Ok(entries) => Ok(
                SgpdModel {
                    grouping_type: code_at(b, 4),
                    default_sample_description_index: if b[0] >= 2 { Some(be32(b, 8)) } else { None },
                    entries,
                },
            ),
        }
    }
}

/// Reads the descriptions, the entry count being at byte `p`.
fn read_descriptions(body: &[u8], p: usize) -> (r: Result<Vec<Vec<u8>>>)
    requires
        body@.len() >= 12,
        p == sgpd_count_pos(body@),
        p + 4 <= body@.len(),
    ensures
        match r {
            Ok(v) => sgpd_descriptions(body@) == Ok::<Seq<Seq<u8>>, Error>(views(v@)),
            Err(e) => sgpd_descriptions(body@) == Err::<Seq<Seq<u8>>, Error>(e),
        },
{
    let len: usize = body.len();
    let count: u32 = read_u32(body, p);
    let mut out: Vec<Vec<u8>> = Vec::new();
    proof { assert(views(out@) =~= Seq::<Seq<u8>>::empty()); }
    let mut off: usize = p + 4;
    let mut i: u32 = 0;
    if body[0] == 1 {
        let w: u32 = read_u32(body, 8);
        if w == 0 {
            while i < count
                invariant
                    len == body@.len(),
                    i <= count,
                    off <= len,
                    sgpd_entries(body@, p + 4, count as nat, Seq::empty()) == sgpd_entries(
                        body@,
                        off as int,
                        (count - i) as nat,
                        views(out@),
                    ),
                    sgpd_descriptions(body@) == (match sgpd_entries(body@, p + 4, count as nat, Seq::empty()) {
                        Err(e) => Err::<Seq<Seq<u8>>, Error>(e),
                        Ok((entries, _)) => Ok(entries),
                    }),
                decreases count - i,
            {
                if len - off < 4 {
                    return Err(Error::invalid("MP4: sgpd description_length truncated"));
                }
                let n: u32 = read_u32(body, off);
                if ((len - off - 4) as u64) < n as u64 {
                    return Err(Error::invalid("MP4: sgpd variable entry truncated"));
                }
                let next: usize = off + 4 + n as usize;
                let d = copy_bytes(&body[off + 4..next]);
                proof { lemma_views_push(out@, d); }
                out.push(d);
                off = next;
                i += 1;
            }
        } else {
            proof {
                assert(0 <= count * w <= 0xFFFF_FFFF * 0xFFFF_FFFF) by (nonlinear_arith)
                    requires 0 <= count <= 0xFFFF_FFFF, 0 <= w <= 0xFFFF_FFFF;
            }
            if (len - p - 4) as u64 / (w as u64) < count as u64 {
                proof {
                    assert(count * w > len - p - 4) by (nonlinear_arith)
                        requires (len - p - 4) / (w as int) < count, w > 0;
                }
                return Err(Error::invalid("MP4: sgpd fixed entry truncated"));
            }
            proof {
                assert(count * w <= len - p - 4) by (nonlinear_arith)
                    requires (len - p - 4) / (w as int) >= count, w > 0, len - p - 4 >= 0;
                assert(w * count == count * w) by (nonlinear_arith);
                assert(w * 0 == 0);
            }
            while i < count
                invariant
                    len == body@.len(),
                    i <= count,
                    off == p + 4 + w * i,
                    p + 4 + w * count <= len,
                    views(out@) =~= slots(body@, p + 4, i as nat, w as int),
                decreases count - i,
            {
                proof {
                    assert(w * (i + 1) == w * i + w) by (nonlinear_arith);
                    assert(w * (i + 1) <= w * count) by (nonlinear_arith)
                        requires i + 1 <= count, w >= 0;
                }
                let next: usize = off + w as usize;
                let d = copy_bytes(&body[off..next]);
                proof { lemma_views_push(out@, d); }
                out.push(d);
                off = next;
                i += 1;
            }
        }
    } else if count > 0 && off < len {
        let d = copy_bytes(&body[off..len]);
        proof {
            lemma_views_push(out@, d);
            assert(views(out@).push(d@) =~= seq![d@]);
        }
        out.push(d);
    }
    Ok(out)
}

/// Parses the descriptions of sample groups.
pub fn parse_sgpd(body: &[u8]) -> (r: Result<SgpdBox>)
    ensures
        seen(r) == sgpd_of(body@),
{
    let len: usize = body.len();
    if len < 4 {
        return Err(Error::invalid("MP4: sgpd too short"));
    }
    if len < 8 {
        return Err(Error::invalid("MP4: sgpd grouping_type truncated"));
    }
    let version: u8 = body[0];
    let grouping_type = read_code(body, 4);
    let mut default_sample_description_index: Option<u32> = None;
    let mut p: usize = 8;
    if version == 1 {
        if len < 12 {
            return Err(Error::invalid("MP4: sgpd default_length truncated"));
        }
        p = 12;
    }
    if version >= 2 {
        if len < 12 {
            return Err(Error::invalid("MP4: sgpd default_sample_description_index truncated"));
        }
        default_sample_description_index = Some(read_u32(body, 8));
        p = 12;
    }
    if len < p + 4 {
        return Err(Error::invalid("MP4: sgpd entry_count truncated"));
    }
    let entries = read_descriptions(body, p)?;
    Ok(SgpdBox { grouping_type, default_sample_description_index, entries })
}

/// The value of the bit of a byte with `k` bits before it.
pub open spec fn bit_of(x: u8, k: int) -> nat {
    (if k == 0 {
        x / 128
    } else if k == 1 {
        x / 64 % 2
    } else if k == 2 {
        x / 32 % 2
    } else if k == 3 {
        x / 16 % 2
    } else if k == 4 {
        x / 8 % 2
    } else if k == 5 {
        x / 4 % 2
    } else if k == 6 {
        x / 2 % 2
    } else {
        x % 2
    }) as nat
}

/// The value of the `n` bits from bit `pos` on, the most significant first.
pub open spec fn bits(b: Seq<u8>, pos: int, n: nat) -> nat
    decreases n,
{
    if n == 0 {
        0
    } else {
        2 * bits(b, pos, (n - 1) as nat) + bit_of(b[(pos + n - 1) / 8], (pos + n - 1) % 8)
    }
}

/// `n` bits hold a number below 2 to the power `n`.
pub proof fn lemma_bits_bound(b: Seq<u8>, pos: int, n: nat)
    ensures
        bits(b, pos, n) < pow2(n),
    decreases n,
{
    if n == 0 {
        lemma2_to64();
    } else {
        lemma_bits_bound(b, pos, (n - 1) as nat);
        lemma_pow2_unfold(n);
    }
}

/// Reading `m` bits and then `n` gives the two parts of what reading `m + n` gives.
pub proof fn law_bits_split(b: Seq<u8>, pos: int, m: nat, n: nat)
    ensures
        bits(b, pos, m + n) == bits(b, pos, m) * pow2(n) + bits(b, pos + m, n),
    decreases n,
{
    if n == 0 {
        lemma2_to64();
    } else {
        let k = (n - 1) as nat;
        law_bits_split(b, pos, m, k);
        lemma_pow2_unfold(n);
        assert(pos + (m + n) - 1 == (pos + m) + n - 1);
        assert((m + n) as nat - 1 == m + k);
        let x = bits(b, pos, m) as int;
        let p = pow2(k) as int;
        assert(2 * (x * p) == x * (2 * p)) by (nonlinear_arith);
    }
}

/// A position in a byte string, in bits.
pub struct BitCursor<'a> {
    pub data: &'a [u8],
    pub bit_pos: u128,
}

impl<'a> BitCursor<'a> {
    /// A cursor at byte `byte_off`.
    pub fn new(data: &'a [u8], byte_off: usize) -> (c: Self)
        ensures
            c.data@ == data@,
            c.bit_pos == 8 * byte_off,
    {
        BitCursor { data, bit_pos: byte_off as u128 * 8 }
    }

    /// Reads `n` bits, the most significant first, and moves behind them. Where fewer
    /// are left, it stays; reading no bits always works.
    pub fn read(&mut self, n: u32) -> (r: Option<u32>)
        requires
            n <= 32,
            old(self).bit_pos <= u128::MAX - 32,
        ensures
            final(self).data@ == old(self).data@,
            n == 0 || old(self).bit_pos + n <= 8 * old(self).data@.len() ==> {
                &&& r matches Some(v) && v == bits(old(self).data@, old(self).bit_pos as int, n as nat)
                &&& final(self).bit_pos == old(self).bit_pos + n
            },
            n != 0 && old(self).bit_pos + n > 8 * old(self).data@.len() ==> {
                &&& r is None
                &&& final(self).bit_pos == old(self).bit_pos
            },
    {
        if n == 0 {
            return Some(0);
        }
        let len: usize = self.data.len();
        if self.bit_pos + n as u128 > len as u128 * 8 {
            return None;
        }
        let ghost data = self.data@;
        let ghost start = self.bit_pos as int;
        let mut value: u64 = 0;
        let mut i: u32 = 0;
        proof { lemma2_to64(); }
        while i < n
            invariant
                i <= n <= 32,
                len == data.len(),
                self.data@ == data,
                self.bit_pos == start + i,
                0 <= start,
                start + n <= 8 * len,
                value == bits(data, start, i as nat),
                value < pow2(i as nat),
                pow2(32) == 0x1_0000_0000,
            decreases n - i,
        {
            let byte: u8 = self.data[(self.bit_pos / 8) as usize];
            let k: u128 = self.bit_pos % 8;
            let bit: u8 = if k == 0 {
                byte / 128
            } else if k == 1 {
                byte / 64 % 2
            } else if k == 2 {
                byte / 32 % 2
            } else if k == 3 {
                byte / 16 % 2
            } else if k == 4 {
                byte / 8 % 2
            } else if k == 5 {
                byte / 4 % 2
            } else if k == 6 {
                byte / 2 % 2
            } else {
                byte % 2
            };
            proof {
                assert(bit == bit_of(data[(start + i) / 8], (start + i) % 8));
                lemma_pow2_strictly_increases(i as nat, 32);
                lemma_bits_bound(data, start, (i + 1) as nat);
                assert(bits(data, start, (i + 1) as nat) == 2 * bits(data, start, i as nat) + bit);
            }
            value = value * 2 + bit as u64;
            self.bit_pos = self.bit_pos + 1;
            i += 1;
        }
        proof {
            if n < 32 {
                lemma_pow2_strictly_increases(n as nat, 32);
            }
        }
        Some(value as u32)
    }
}

/// The width in bits that a two-bit code of a `csgp` payload stands for.
pub open spec fn csgp_width(code: int) -> nat {
    if code == 0 {
        4
    } else if code == 1 {
        8
    } else if code == 2 {
        16
    } else {
        32
    }
}

/// Where the pattern count of a `csgp` payload stands.
pub open spec fn csgp_count_pos(b: Seq<u8>) -> int {
    if b[3] / 64 % 2 == 1 { 12 } else { 8 }
}

/// The length and sample count of a pattern at bit `pos`.
pub open spec fn csgp_length_at(b: Seq<u8>, pos: int, pattern_w: nat, count_w: nat) -> Result<((u32, u32), int)> {
    if pos + pattern_w > 8 * b.len() {
        Err(Error::invalid("MP4: csgp pattern_length truncated"))
    } else if pos + pattern_w + count_w > 8 * b.len() {
        Err(Error::invalid("MP4: csgp sample_count truncated"))
    } else {
        Ok(
            (
                (bits(b, pos, pattern_w) as u32, bits(b, pos + pattern_w, count_w) as u32),
                pos + pattern_w + count_w,
            ),
        )
    }
}

/// The lengths and sample counts of `n` patterns from bit `pos` on, behind those in `acc`.
pub open spec fn csgp_lengths(b: Seq<u8>, pos: int, n: nat, acc: Seq<(u32, u32)>, pattern_w: nat, count_w: nat) -> Result<
    (Seq<(u32, u32)>, int),
> {
    items(b, pos, n, acc, |b: Seq<u8>, pos: int| csgp_length_at(b, pos, pattern_w, count_w))
}

/// `n` numbers of `w` bits each from bit `pos` on.
pub open spec fn bit_fields(b: Seq<u8>, pos: int, n: nat, w: nat) -> Seq<u32> {
    Seq::new(n, |i: int| bits(b, pos + w * i, w) as u32)
}

/// The patterns of the given lengths and sample counts from bit `pos` on, behind those in `acc`.
pub open spec fn csgp_patterns(
    b: Seq<u8>,
    pos: int,
    lengths: Seq<(u32, u32)>,
    acc: Seq<CsgpPatternModel>,
    w: nat,
) -> Result<Seq<CsgpPatternModel>>
    decreases lengths.len(),
{
    if lengths.len() == 0 {
        Ok(acc)
    } else if pos + w * lengths[0].0 > 8 * b.len() {
        Err(Error::invalid("MP4: csgp index truncated"))
    } else {
        csgp_patterns(
            b,
            pos + w * lengths[0].0,
            lengths.drop_first(),
            acc.push(
                CsgpPatternModel {
                    sample_count: lengths[0].1,
                    indices: bit_fields(b, pos, lengths[0].0 as nat, w),
                },
            ),
            w,
        )
    }
}

/// The content of a `csgp` payload.
pub open spec fn csgp_of(b: Seq<u8>) -> Result<CsgpModel> {
    let p = csgp_count_pos(b);
    let index_w = csgp_width(b[3] as int % 4);
    let count_w = csgp_width(b[3] as int / 4 % 4);
    let pattern_w = csgp_width(b[3] as int / 16 % 4);
    if b.len() < 4 {
        Err(Error::invalid("MP4: csgp too short"))
    } else if b.len() < 8 {
        Err(Error::invalid("MP4: csgp grouping_type truncated"))
    } else if p == 12 && b.len() < 12 {
        Err(Error::invalid("MP4: csgp grouping_type_parameter truncated"))
    } else if b.len() < p + 4 {
        Err(Error::invalid("MP4: csgp pattern_count truncated"))
    } else {
        match csgp_lengths(b, 8 * (p + 4), be32(b, p) as nat, Seq::empty(), pattern_w, count_w) {
            Err(e) => Err(e),
            Ok((lengths, pos)) => match csgp_patterns(b, pos, lengths, Seq::empty(), index_w) {
                Err(e) => Err(e),
                Ok(patterns) => Ok(
                    CsgpModel {
                        grouping_type: code_at(b, 4),
                        grouping_type_parameter: if p == 12 { Some(be32(b, 8)) } else { None },
                        patterns,
                    },
                ),
            },
        }
    }
}

fn width(code: u8) -> (w: u32)
    ensures
        w == csgp_width(code as int),
        4 <= w <= 32,
{
    if code == 0 {
        4
    } else if code == 1 {
        8
    } else if code == 2 {
        16
    } else {
        32
    }
}

/// Reads `n` numbers of `w` bits each.
fn read_bit_fields(cur: &mut BitCursor, n: u32, w: u32) -> (r: Result<Vec<u32>>)
    requires
        1 <= w <= 32,
        old(cur).bit_pos <= 8 * old(cur).data@.len(),
        old(cur).data@.len() <= usize::MAX,
    ensures
        final(cur).data@ == old(cur).data@,
        match r {
            Ok(v) => {
                &&& old(cur).bit_pos + w * n <= 8 * old(cur).data@.len()
                &&& v@ == bit_fields(old(cur).data@, old(cur).bit_pos as int, n as nat, w as nat)
                &&& final(cur).bit_pos == old(cur).bit_pos + w * n
            },
            Err(e) => {
                &&& old(cur).bit_pos + w * n > 8 * old(cur).data@.len()
                &&& e == Error::invalid("MP4: csgp index truncated")
            },
        },
{
    let ghost data = cur.data@;
    let ghost start = cur.bit_pos as int;
    let mut out: Vec<u32> = Vec::new();
    let mut i: u32 = 0;
    proof { assert(w * 0 == 0); }
    while i < n
        invariant
            i <= n,
            1 <= w <= 32,
            cur.data@ == data,
            data.len() <= usize::MAX,
            start == old(cur).bit_pos,
            data == old(cur).data@,
            cur.bit_pos == start + w * i,
            cur.bit_pos <= 8 * data.len(),
            out@ =~= bit_fields(data, start, i as nat, w as nat),
        decreases n - i,
    {
        proof {
            assert(w * (i + 1) == w * i + w) by (nonlinear_arith);
            assert(w * (i + 1) <= w * n) by (nonlinear_arith)
                requires i + 1 <= n, w >= 0;
        }
        match cur.read(w) {
            Some(v) => out.push(v),
            None => return Err(Error::invalid("MP4: csgp index truncated")),
        }
        i += 1;
    }
    Ok(out)
}

/// Parses the compact sample-to-group table.
pub fn parse_csgp(body: &[u8]) -> (r: Result<CsgpBox>)
    ensures
        seen(r) == csgp_of(body@),
{
    let len: usize = body.len();
    if len < 4 {
        return Err(Error::invalid("MP4: csgp too short"));
    }
    if len < 8 {
        return Err(Error::invalid("MP4: csgp grouping_type truncated"));
    }
    let codes: u8 = body[3];
    let index_w: u32 = width(codes % 4);
    let count_w: u32 = width(codes / 4 % 4);
    let pattern_w: u32 = width(codes / 16 % 4);
    let grouping_type = read_code(body, 4);
    let mut grouping_type_parameter: Option<u32> = None;
    let mut p: usize = 8;
    if codes / 64 % 2 == 1 {
        if len < 12 {
            return Err(Error::invalid("MP4: csgp grouping_type_parameter truncated"));
        }
        grouping_type_parameter = Some(read_u32(body, 8));
        p = 12;
    }
    if len < p + 4 {
        return Err(Error::invalid("MP4: csgp pattern_count truncated"));
    }
    let pattern_count: u32 = read_u32(body, p);
    let mut cur = BitCursor::new(body, p + 4);
    let mut lengths: Vec<(u32, u32)> = Vec::new();
    let mut i: u32 = 0;
    let ghost all = csgp_lengths(body@, 8 * (p + 4), pattern_count as nat, Seq::empty(), pattern_w as nat, count_w as nat);
    proof { assert(lengths@ =~= Seq::<(u32, u32)>::empty()); }
    while i < pattern_count
        invariant
            i <= pattern_count,
            len == body@.len(),
            len >= p + 4,
            p == csgp_count_pos(body@),
            p == 8 || p == 12,
            len >= 8,
            pattern_count == be32(body@, p as int),
            count_w == csgp_width(body@[3] as int / 4 % 4),
            pattern_w == csgp_width(body@[3] as int / 16 % 4),
            cur.data@ == body@,
            cur.bit_pos <= 8 * len,
            4 <= pattern_w <= 32,
            4 <= count_w <= 32,
            all == csgp_lengths(body@, 8 * (p + 4), pattern_count as nat, Seq::empty(), pattern_w as nat, count_w as nat),
            all == csgp_lengths(
                body@,
                cur.bit_pos as int,
                (pattern_count - i) as nat,
                lengths@,
                pattern_w as nat,
                count_w as nat,
            ),
        decreases pattern_count - i,
    {
        let pattern_length: u32 = match cur.read(pattern_w) {
            Some(v) => v,
            None => return Err(Error::invalid("MP4: csgp pattern_length truncated")),
        };
        let sample_count: u32 = match cur.read(count_w) {
            Some(v) => v,
            None => return Err(Error::invalid("MP4: csgp sample_count truncated")),
        };
        lengths.push((pattern_length, sample_count));
        i += 1;
    }
    let mut patterns: Vec<CsgpPattern> = Vec::new();
    let mut k: usize = 0;
    proof {
        assert(views(patterns@) =~= Seq::<CsgpPatternModel>::empty());
        assert(lengths@.subrange(0, lengths@.len() as int) =~= lengths@);
    }
    let ghost found = csgp_patterns(body@, cur.bit_pos as int, lengths@, Seq::empty(), index_w as nat);
    while k < lengths.len()
        invariant
            k <= lengths@.len(),
            len == body@.len(),
            cur.data@ == body@,
            cur.bit_pos <= 8 * len,
            4 <= index_w <= 32,
            csgp_of(body@) == (match found {
                Err(e) => Err::<CsgpModel, Error>(e),
                Ok(patterns) => Ok(CsgpModel { grouping_type, grouping_type_parameter, patterns }),
            }),
            found == csgp_patterns(
                body@,
                cur.bit_pos as int,
                lengths@.subrange(k as int, lengths@.len() as int),
                views(patterns@),
                index_w as nat,
            ),
        decreases lengths@.len() - k,
    {
        let (pattern_length, sample_count) = lengths[k];
        proof {
            let rest = lengths@.subrange(k as int, lengths@.len() as int);
            assert(rest[0] == lengths@[k as int]);
            assert(rest.drop_first() =~= lengths@.subrange(k + 1, lengths@.len() as int));
        }
        let indices = read_bit_fields(&mut cur, pattern_length, index_w)?;
        let pattern = CsgpPattern { sample_count, indices };
        proof { lemma_views_push(patterns@, pattern); }
        patterns.push(pattern);
        k += 1;
    }
    Ok(CsgpBox { grouping_type, grouping_type_parameter, patterns })
}

}
