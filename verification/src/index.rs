//! Boxes that index a file or announce how it is played: `sidx`, `ssix`, `pdin`, `leva`,
//! `trep`, `prft` and `mfra`.
use vstd::prelude::*;
use crate::boxes::{
    body_of, boxed, items, lemma_views_push, next_child, views, walk, wrap_box, Child, Outcome,
};
use crate::bytes::{
    be16, be24, be32, be64, code_at, enc24, enc32, law_enc24_be24, law_enc32_be32, push_u24, push_u32,
    read_code, read_u16, read_u24, read_u32, read_u64,
};
use crate::error::{seen, seen_opt, Error, Result};
use crate::kinds::{SSIX, TFRA};
use crate::numbers::{length32, low32};
use crate::tables::{fits, rows_fit};

verus! {

/// A segment index.
#[derive(Clone, Debug)]
pub struct SidxRecord {
    pub reference_id: u32,
    pub timescale: u32,
    pub earliest_presentation_time: u64,
    /// Where in the file the first referenced item starts.
    pub first_byte_offset: u64,
    pub references: Vec<SidxReference>,
}

/// The model of `SidxRecord`.
pub ghost struct SidxModel {
    pub reference_id: u32,
    pub timescale: u32,
    pub earliest_presentation_time: u64,
    pub first_byte_offset: u64,
    pub references: Seq<SidxReference>,
}

impl View for SidxRecord {
    type V = SidxModel;

    open spec fn view(&self) -> SidxModel {
        SidxModel {
            reference_id: self.reference_id,
            timescale: self.timescale,
            earliest_presentation_time: self.earliest_presentation_time,
            first_byte_offset: self.first_byte_offset,
            references: self.references@,
        }
    }
}

/// One reference of a segment index.
#[derive(Clone, Copy, Debug)]
pub struct SidxReference {
    /// Whether it is to another index rather than to media.
    pub is_sidx: bool,
    pub referenced_size: u32,
    pub subsegment_duration: u32,
    pub starts_with_sap: bool,
    pub sap_type: u8,
}

/// The reference at byte `p`.
pub open spec fn sidx_reference_at(b: Seq<u8>, p: int) -> SidxReference {
    SidxReference {
        is_sidx: be32(b, p) >= 0x8000_0000,
        referenced_size: be32(b, p) % 0x8000_0000,
        subsegment_duration: be32(b, p + 4),
        starts_with_sap: be32(b, p + 8) >= 0x8000_0000,
        sap_type: (be32(b, p + 8) / 0x1000_0000 % 8) as u8,
    }
}

/// Where the reference count of a `sidx` payload stands; version 0 has narrower times.
pub open spec fn sidx_count_pos(b: Seq<u8>) -> int {
    if b[0] == 0 { 20 } else { 28 }
}

/// The sum of two numbers, at most the largest that 64 bits hold.
pub open spec fn saturating_sum(a: u64, b: u64) -> u64 {
    if a + b > u64::MAX { u64::MAX } else { (a + b) as u64 }
}

/// The content of a `sidx` payload of a box that ends at `end` in the file.
pub open spec fn sidx_of(b: Seq<u8>, end: u64) -> Result<SidxModel> {
    let p = sidx_count_pos(b);
    if b.len() < 12 {
        Err(Error::invalid("MP4: sidx too short"))
    } else if b[0] == 0 && b.len() < 20 {
        Err(Error::invalid("MP4: sidx v0 truncated"))
    } else if b[0] != 0 && b.len() < 28 {
        Err(Error::invalid("MP4: sidx v1 truncated"))
    } else if b.len() < p + 4 {
        Err(Error::invalid("MP4: sidx header truncated"))
    } else if b.len() < p + 4 + 12 * be16(b, p + 2) {
        Err(Error::invalid("MP4: sidx references truncated"))
    } else {
        Ok(
            SidxModel {
                reference_id: be32(b, 4),
                timescale: be32(b, 8),
                earliest_presentation_time: if b[0] == 0 { be32(b, 12) as u64 } else { be64(b, 12) },
                first_byte_offset: saturating_sum(end, if b[0] == 0 { be32(b, 16) as u64 } else { be64(b, 20) }),
                references: Seq::new(be16(b, p + 2) as nat, |i: int| sidx_reference_at(b, p + 4 + 12 * i)),
            },
        )
    }
}

/// Parses a segment index.
pub fn parse_sidx(body: &[u8], sidx_end_offset: u64) -> (r: Result<Option<SidxRecord>>)
    ensures
        match sidx_of(body@, sidx_end_offset) {
            Ok(m) => seen_opt(r) == Ok::<Option<SidxModel>, Error>(Some(m)),
            Err(e) => seen_opt(r) == Err::<Option<SidxModel>, Error>(e),
        },
{
    let len: usize = body.len();
    if len < 12 {
        return Err(Error::invalid("MP4: sidx too short"));
    }
    let reference_id: u32 = read_u32(body, 4);
    let timescale: u32 = read_u32(body, 8);
    let earliest_presentation_time: u64;
    let first_offset: u64;
    let p: usize;
    if body[0] == 0 {
        if len < 20 {
            return Err(Error::invalid("MP4: sidx v0 truncated"));
        }
        earliest_presentation_time = read_u32(body, 12) as u64;
        first_offset = read_u32(body, 16) as u64;
        p = 20;
    } else {
        if len < 28 {
            return Err(Error::invalid("MP4: sidx v1 truncated"));
        }
        earliest_presentation_time = read_u64(body, 12);
        first_offset = read_u64(body, 20);
        p = 28;
    }
    if len < p + 4 {
        return Err(Error::invalid("MP4: sidx header truncated"));
    }
    let count: u16 = read_u16(body, p + 2);
    if len - p - 4 < 12 * (count as usize) {
        return Err(Error::invalid("MP4: sidx references truncated"));
    }
    let mut references: Vec<SidxReference> = Vec::new();
    let mut i: u16 = 0;
    let mut q: usize = p + 4;
    while i < count
        invariant
            len == body@.len(),
            i <= count,
            q == p + 4 + 12 * i,
            p + 4 + 12 * count <= len,
            references@ =~= Seq::new(i as nat, |k: int| sidx_reference_at(body@, p + 4 + 12 * k)),
        decreases count - i,
    {
        let r0: u32 = read_u32(body, q);
        let r2: u32 = read_u32(body, q + 8);
        references.push(
            SidxReference {
                is_sidx: r0 >= 0x8000_0000,
                referenced_size: r0 % 0x8000_0000,
                subsegment_duration: read_u32(body, q + 4),
                starts_with_sap: r2 >= 0x8000_0000,
                sap_type: (r2 / 0x1000_0000 % 8) as u8,
            },
        );
        q += 12;
        i += 1;
    }
    let first_byte_offset: u64 = if first_offset > u64::MAX - sidx_end_offset {
        u64::MAX
    } else {
        sidx_end_offset + first_offset
    };
    Ok(Some(SidxRecord { reference_id, timescale, earliest_presentation_time, first_byte_offset, references }))
}

/// Parses the payload of a `sidx` box that ends at `sidx_end_offset` in the file.
pub fn parse_sidx_box(body: &[u8], sidx_end_offset: u64) -> (r: Result<Option<SidxRecord>>)
    ensures
        match sidx_of(body@, sidx_end_offset) {
            Ok(m) => seen_opt(r) == Ok::<Option<SidxModel>, Error>(Some(m)),
            Err(e) => seen_opt(r) == Err::<Option<SidxModel>, Error>(e),
        },
{
    parse_sidx(body, sidx_end_offset)
}

/// A subsegment index.
#[derive(Clone, Debug, PartialEq, Eq)]
pub struct SsixRecord {
    pub subsegments: Vec<SsixSubsegment>,
}

/// The byte ranges of one subsegment.
#[derive(Clone, Debug, PartialEq, Eq)]
pub struct SsixSubsegment {
    pub ranges: Vec<SsixRange>,
}

/// A byte range and its level.
#[derive(Clone, Copy, Debug, PartialEq, Eq)]
pub struct SsixRange {
    pub level: u8,
    /// The size in bytes; the format has 24 bits for it.
    pub range_size: u32,
}

impl View for SsixSubsegment {
    type V = Seq<SsixRange>;

    open spec fn view(&self) -> Seq<SsixRange> {
        self.ranges@
    }
}

impl View for SsixRecord {
    type V = Seq<Seq<SsixRange>>;

    open spec fn view(&self) -> Seq<Seq<SsixRange>> {
        views(self.subsegments@)
    }
}

/// The byte ranges from byte `p` on.
pub open spec fn ssix_ranges_at(b: Seq<u8>, p: int, n: nat) -> Seq<SsixRange> {
    Seq::new(n, |i: int| SsixRange { level: b[p + 4 * i], range_size: be24(b, p + 4 * i + 1) })
}

/// The subsegment at byte `off`, and where the next one starts.
pub open spec fn ssix_subsegment_at(b: Seq<u8>, off: int) -> Result<(Seq<SsixRange>, int)> {
    if b.len() < off + 4 {
        Err(Error::invalid("MP4: ssix subsegment truncated"))
    } else if !fits(b, off + 4, be32(b, off), 4) {
        Err(Error::invalid("MP4: ssix range list truncated"))
    } else {
        Ok((ssix_ranges_at(b, off + 4, be32(b, off) as nat), off + 4 + 4 * be32(b, off)))
    }
}

/// `n` subsegments from byte `off` on, behind those in `acc`.
pub open spec fn ssix_subsegments(b: Seq<u8>, off: int, n: nat, acc: Seq<Seq<SsixRange>>) -> Result<
    (Seq<Seq<SsixRange>>, int),
> {
    items(b, off, n, acc, |b: Seq<u8>, off: int| ssix_subsegment_at(b, off))
}

/// The content of an `ssix` payload.
pub open spec fn ssix_of(b: Seq<u8>) -> Result<Seq<Seq<SsixRange>>> {
    if b.len() < 8 {
        Err(Error::invalid("MP4: ssix too short"))
    } else if b[0] != 0 {
        Err(Error::invalid("MP4: ssix unsupported version"))
    } else {
        match ssix_subsegments(b, 8, be32(b, 4) as nat, Seq::empty()) {
            Err(e) => Err(e),
            Ok((subsegments, _)) => Ok(subsegments),
        }
    }
}

/// Reads the subsegment at byte `off`.
fn read_subsegment(body: &[u8], off: usize) -> (r: Result<(SsixSubsegment, usize)>)
    requires
        off <= body@.len(),
    ensures
        match r {
            Ok((s, next)) => {
                &&& ssix_subsegment_at(body@, off as int) == Ok::<(Seq<SsixRange>, int), Error>((s@, next as int))
                &&& off <= next <= body@.len()
            },
            Err(e) => ssix_subsegment_at(body@, off as int) == Err::<(Seq<SsixRange>, int), Error>(e),
        },
{
    let len: usize = body.len();
    if len - off < 4 {
        return Err(Error::invalid("MP4: ssix subsegment truncated"));
    }
    let count: u32 = read_u32(body, off);
    if !rows_fit(body, off + 4, count, 4) {
        return Err(Error::invalid("MP4: ssix range list truncated"));
    }
    let mut ranges: Vec<SsixRange> = Vec::new();
    let mut i: u32 = 0;
    let mut p: usize = off + 4;
    while i < count
        invariant
            len == body@.len(),
            i <= count,
            p == off + 4 + 4 * i,
            off + 4 + 4 * count <= len,
            ranges@ =~= ssix_ranges_at(body@, off + 4, i as nat),
        decreases count - i,
    {
        ranges.push(SsixRange { level: body[p], range_size: read_u24(body, p + 1) });
        p += 4;
        i += 1;
    }
    Ok((SsixSubsegment { ranges }, p))
}

/// Parses a subsegment index.
pub fn parse_ssix(body: &[u8]) -> (r: Result<SsixRecord>)
    ensures
        seen(r) == ssix_of(body@),
{
    if body.len() < 8 {
        return Err(Error::invalid("MP4: ssix too short"));
    }
    if body[0] != 0 {
        return Err(Error::invalid("MP4: ssix unsupported version"));
    }
    let count: u32 = read_u32(body, 4);
    let mut subsegments: Vec<SsixSubsegment> = Vec::new();
    let mut off: usize = 8;
    let mut i: u32 = 0;
    proof { assert(views(subsegments@) =~= Seq::<Seq<SsixRange>>::empty()); }
    while i < count
        invariant
            8 <= off <= body@.len(),
            i <= count,
            count == be32(body@, 4),
            body@[0] == 0,
            ssix_subsegments(body@, 8, count as nat, Seq::empty()) == ssix_subsegments(
                body@,
                off as int,
                (count - i) as nat,
                views(subsegments@),
            ),
        decreases count - i,
    {
        let (s, next) = read_subsegment(body, off)?;
        proof { lemma_views_push(subsegments@, s); }
        subsegments.push(s);
        off = next;
        i += 1;
    }
    Ok(SsixRecord { subsegments })
}

/// Parses the payload of an `ssix` box.
pub fn parse_ssix_box(body: &[u8]) -> (r: Result<SsixRecord>)
    ensures
        seen(r) == ssix_of(body@),
{
    parse_ssix(body)
}

/// Whether every size fits in the 24 bits that the format has for it.
pub open spec fn ssix_sizes_fit(s: Seq<Seq<SsixRange>>) -> bool {
    forall|i: int, j: int| 0 <= i < s.len() && 0 <= j < s[i].len() ==> (#[trigger] s[i][j]).range_size <= 0xFF_FFFF
}

/// The bytes of byte ranges: a level and a size each.
pub open spec fn enc_ranges(s: Seq<SsixRange>) -> Seq<u8>
    decreases s.len(),
{
    if s.len() == 0 {
        Seq::empty()
    } else {
        enc_ranges(s.drop_last()).push(s.last().level) + enc24(s.last().range_size)
    }
}

/// The bytes of a subsegment: the number of its ranges, and the ranges.
pub open spec fn enc_subsegment(s: Seq<SsixRange>) -> Seq<u8> {
    enc32(low32(s.len() as int)) + enc_ranges(s)
}

/// The bytes of subsegments.
pub open spec fn enc_subsegments(s: Seq<Seq<SsixRange>>) -> Seq<u8>
    decreases s.len(),
{
    if s.len() == 0 { Seq::empty() } else { enc_subsegments(s.drop_last()) + enc_subsegment(s.last()) }
}

/// The payload of an `ssix` box: version and flags 0, the number of subsegments, and these.
pub open spec fn ssix_payload(s: Seq<Seq<SsixRange>>) -> Seq<u8> {
    enc32(0) + enc32(low32(s.len() as int)) + enc_subsegments(s)
}

/// Appends the byte ranges of one subsegment, as far as their sizes fit.
fn push_ranges(out: &mut Vec<u8>, ranges: &Vec<SsixRange>) -> (r: Result<()>)
    ensures
        match r {
            Ok(_) => {
                &&& forall|j: int| 0 <= j < ranges@.len() ==> (#[trigger] ranges@[j]).range_size <= 0xFF_FFFF
                &&& final(out)@ == old(out)@ + enc_ranges(ranges@)
            },
            Err(e) => {
                &&& e == Error::invalid("MP4: ssix range_size exceeds 24 bits")
                &&& exists|j: int| 0 <= j < ranges@.len() && (#[trigger] ranges@[j]).range_size > 0xFF_FFFF
            },
        },
{
    let ghost start = out@;
    let mut j: usize = 0;
    proof { assert(start + enc_ranges(ranges@.subrange(0, 0)) =~= start); }
    while j < ranges.len()
        invariant
            j <= ranges@.len(),
            forall|k: int| 0 <= k < j ==> (#[trigger] ranges@[k]).range_size <= 0xFF_FFFF,
            out@ == start + enc_ranges(ranges@.subrange(0, j as int)),
        decreases ranges@.len() - j,
    {
        let r = ranges[j];
        if r.range_size > 0xFF_FFFF {
            assert(ranges@[j as int].range_size > 0xFF_FFFF);
            return Err(Error::invalid("MP4: ssix range_size exceeds 24 bits"));
        }
        out.push(r.level);
        push_u24(out, r.range_size);
        proof {
            let s = ranges@.subrange(0, j + 1);
            assert(s.drop_last() =~= ranges@.subrange(0, j as int));
            assert(out@ =~= start + enc_ranges(s));
        }
        j += 1;
    }
    proof { assert(ranges@.subrange(0, j as int) =~= ranges@); }
    Ok(())
}

/// Builds a whole `ssix` box. A size that does not fit in 24 bits is refused.
pub fn build_ssix_box(record: &SsixRecord) -> (r: Result<Vec<u8>>)
    ensures
        match r {
            Ok(v) => ssix_sizes_fit(record@) && v@ == boxed(SSIX, ssix_payload(record@)),
            Err(e) => !ssix_sizes_fit(record@) && e == Error::invalid("MP4: ssix range_size exceeds 24 bits"),
        },
{
    let mut body: Vec<u8> = Vec::new();
    push_u32(&mut body, 0);
    push_u32(&mut body, length32(record.subsegments.len(), 0));
    let ghost all = record@;
    let ghost head = body@;
    let mut i: usize = 0;
    proof {
        assert(head =~= enc32(0) + enc32(low32(all.len() as int)));
        assert(head + enc_subsegments(all.subrange(0, 0)) =~= head);
    }
    while i < record.subsegments.len()
        invariant
            i <= record.subsegments@.len(),
            all == record@,
            all.len() == record.subsegments@.len(),
            forall|m: int, k: int| 0 <= m < i && 0 <= k < all[m].len() ==> (#[trigger] all[m][k]).range_size <= 0xFF_FFFF,
            body@ == head + enc_subsegments(all.subrange(0, i as int)),
        decreases record.subsegments@.len() - i,
    {
        let s = &record.subsegments[i];
        let ghost before = body@;
        assert(s@ == all[i as int]);
        push_u32(&mut body, length32(s.ranges.len(), 0));
        match push_ranges(&mut body, &s.ranges) {
            Ok(_) => {},
            Err(e) => {
                proof {
                    let j = choose|j: int| 0 <= j < s.ranges@.len() && (#[trigger] s.ranges@[j]).range_size > 0xFF_FFFF;
                    assert(all[i as int][j].range_size > 0xFF_FFFF);
                }
                return Err(e);
            },
        }
        proof {
            let t = all.subrange(0, i + 1);
            assert(t.drop_last() =~= all.subrange(0, i as int));
            assert(body@ =~= head + enc_subsegments(t));
        }
        i += 1;
    }
    proof {
        assert(all.subrange(0, i as int) =~= all);
        assert(body@ == ssix_payload(all));
    }
    Ok(wrap_box(SSIX, &body))
}

proof fn lemma_enc_ranges_len(s: Seq<SsixRange>)
    ensures
        enc_ranges(s).len() == 4 * s.len(),
    decreases s.len(),
{
    if s.len() > 0 {
        lemma_enc_ranges_len(s.drop_last());
    }
}

/// The ranges that were written at byte `p` are read back.
proof fn lemma_ranges_back(b: Seq<u8>, p: int, s: Seq<SsixRange>)
    requires
        0 <= p,
        p + 4 * s.len() <= b.len(),
        b.subrange(p, p + 4 * s.len()) == enc_ranges(s),
        forall|j: int| 0 <= j < s.len() ==> (#[trigger] s[j]).range_size <= 0xFF_FFFF,
    ensures
        ssix_ranges_at(b, p, s.len()) == s,
    decreases s.len(),
{
    lemma_enc_ranges_len(s);
    if s.len() > 0 {
        let t = s.drop_last();
        let q = p + 4 * t.len();
        lemma_enc_ranges_len(t);
        let e = enc_ranges(s);
        assert(b.subrange(p, p + 4 * t.len()) =~= enc_ranges(t)) by {
            assert(e.subrange(0, 4 * t.len() as int) =~= enc_ranges(t));
            assert(b.subrange(p, p + 4 * t.len()) =~= b.subrange(p, p + 4 * s.len()).subrange(0, 4 * t.len() as int));
        }
        lemma_ranges_back(b, p, t);
        assert(b[q] == b.subrange(p, p + 4 * s.len())[4 * t.len() as int]);
        assert(b[q] == s.last().level);
        assert(b.subrange(q + 1, q + 4) =~= enc24(s.last().range_size)) by {
            assert(e.subrange(4 * t.len() as int + 1, 4 * s.len() as int) =~= enc24(s.last().range_size));
            assert(b.subrange(q + 1, q + 4) =~= b.subrange(p, p + 4 * s.len()).subrange(
                4 * t.len() as int + 1,
                4 * s.len() as int,
            ));
        }
        law_enc24_be24(s.last().range_size, b, q + 1);
        assert(ssix_ranges_at(b, p, s.len()) =~= s) by {
            assert forall|i: int| 0 <= i < s.len() implies #[trigger] ssix_ranges_at(b, p, s.len())[i] == s[i] by {
                if i < t.len() {
                    assert(ssix_ranges_at(b, p, t.len())[i] == t[i]);
                }
            }
        }
    } else {
        assert(ssix_ranges_at(b, p, s.len()) =~= s);
    }
}

/// The bytes of the first `k` subsegments start those of all.
proof fn lemma_subsegments_prefix(s: Seq<Seq<SsixRange>>, k: int)
    requires
        0 <= k <= s.len(),
    ensures
        enc_subsegments(s.subrange(0, k)).len() <= enc_subsegments(s).len(),
        enc_subsegments(s).subrange(0, enc_subsegments(s.subrange(0, k)).len() as int) == enc_subsegments(
            s.subrange(0, k),
        ),
    decreases s.len() - k,
{
    if k == s.len() {
        assert(s.subrange(0, k) =~= s);
        assert(enc_subsegments(s).subrange(0, enc_subsegments(s).len() as int) =~= enc_subsegments(s));
    } else {
        lemma_subsegments_prefix(s, k + 1);
        let a = enc_subsegments(s.subrange(0, k));
        let c = enc_subsegments(s.subrange(0, k + 1));
        assert(s.subrange(0, k + 1).drop_last() =~= s.subrange(0, k));
        assert(c == a + enc_subsegment(s[k]));
        assert(c.subrange(0, a.len() as int) =~= a);
        assert(enc_subsegments(s).subrange(0, a.len() as int) =~= enc_subsegments(s).subrange(0, c.len() as int).subrange(
            0,
            a.len() as int,
        ));
    }
}

/// A subsegment that was written at byte `pos` is read back.
proof fn lemma_subsegment_back(b: Seq<u8>, pos: int, x: Seq<SsixRange>)
    requires
        0 <= pos,
        pos + enc_subsegment(x).len() <= b.len(),
        b.subrange(pos, pos + enc_subsegment(x).len()) == enc_subsegment(x),
        x.len() < 0x1_0000_0000,
        forall|j: int| 0 <= j < x.len() ==> (#[trigger] x[j]).range_size <= 0xFF_FFFF,
    ensures
        ssix_subsegment_at(b, pos) == Ok::<(Seq<SsixRange>, int), Error>((x, pos + enc_subsegment(x).len())),
{
    lemma_enc_ranges_len(x);
    let e = enc_subsegment(x);
    let w = b.subrange(pos, pos + e.len());
    assert(e.len() == 4 + 4 * x.len());
    assert(b.subrange(pos, pos + 4) =~= enc32(low32(x.len() as int))) by {
        assert(b.subrange(pos, pos + 4) =~= w.subrange(0, 4));
        assert(e.subrange(0, 4) =~= enc32(low32(x.len() as int)));
    }
    law_enc32_be32(low32(x.len() as int), b, pos);
    assert(be32(b, pos) == x.len());
    assert(b.subrange(pos + 4, pos + 4 + 4 * x.len()) =~= enc_ranges(x)) by {
        assert(b.subrange(pos + 4, pos + 4 + 4 * x.len()) =~= w.subrange(4, e.len() as int));
        assert(e.subrange(4, e.len() as int) =~= enc_ranges(x));
    }
    lemma_ranges_back(b, pos + 4, x);
}

/// Where the `k`th subsegment stands in the payload.
proof fn lemma_subsegment_place(s: Seq<Seq<SsixRange>>, k: int)
    requires
        0 <= k < s.len(),
    ensures
        ({
            let pos = 8 + enc_subsegments(s.subrange(0, k)).len() as int;
            let end = pos + enc_subsegment(s[k]).len();
            &&& end == 8 + enc_subsegments(s.subrange(0, k + 1)).len()
            &&& end <= ssix_payload(s).len()
            &&& ssix_payload(s).subrange(pos, end) == enc_subsegment(s[k])
        }),
{
    lemma_subsegments_prefix(s, k + 1);
    let a = enc_subsegments(s.subrange(0, k));
    let c = enc_subsegments(s.subrange(0, k + 1));
    assert(s.subrange(0, k + 1).drop_last() =~= s.subrange(0, k));
    assert(c == a + enc_subsegment(s[k]));
    let b = ssix_payload(s);
    assert(b.subrange(8, 8 + c.len() as int) =~= enc_subsegments(s).subrange(0, c.len() as int));
    assert(b.subrange(8 + a.len() as int, 8 + c.len() as int) =~= b.subrange(8, 8 + c.len() as int).subrange(
        a.len() as int,
        c.len() as int,
    ));
    assert(c.subrange(a.len() as int, c.len() as int) =~= enc_subsegment(s[k]));
}

/// The subsegments from the `k`th on are read back.
proof fn lemma_subsegments_back(b: Seq<u8>, s: Seq<Seq<SsixRange>>, k: int)
    requires
        0 <= k <= s.len(),
        b == ssix_payload(s),
        ssix_sizes_fit(s),
        forall|i: int| 0 <= i < s.len() ==> (#[trigger] s[i]).len() < 0x1_0000_0000,
    ensures
        ssix_subsegments(
            b,
            8 + enc_subsegments(s.subrange(0, k)).len() as int,
            (s.len() - k) as nat,
            s.subrange(0, k),
        ) == Ok::<(Seq<Seq<SsixRange>>, int), Error>((s, b.len() as int)),
    decreases s.len() - k,
{
    let pos = 8 + enc_subsegments(s.subrange(0, k)).len() as int;
    if k == s.len() {
        assert(s.subrange(0, k) =~= s);
    } else {
        lemma_subsegment_place(s, k);
        assert forall|j: int| 0 <= j < s[k].len() implies (#[trigger] s[k][j]).range_size <= 0xFF_FFFF by {}
        lemma_subsegment_back(b, pos, s[k]);
        lemma_subsegments_back(b, s, k + 1);
        assert(s.subrange(0, k + 1) =~= s.subrange(0, k).push(s[k]));
    }
}

/// A subsegment index is read back as it was written.
pub proof fn law_ssix_round_trip(s: Seq<Seq<SsixRange>>)
    requires
        ssix_sizes_fit(s),
        s.len() < 0x1_0000_0000,
        forall|i: int| 0 <= i < s.len() ==> (#[trigger] s[i]).len() < 0x1_0000_0000,
    ensures
        ssix_of(ssix_payload(s)) == Ok::<Seq<Seq<SsixRange>>, Error>(s),
{
    let b = ssix_payload(s);
    assert(b[0] == enc32(0)[0]);
    assert(b.subrange(4, 8) =~= enc32(low32(s.len() as int)));
    law_enc32_be32(low32(s.len() as int), b, 4);
    assert(s.subrange(0, 0) =~= Seq::empty());
    lemma_subsegments_back(b, s, 0);
}

/// A download rate and the delay before playback that goes with it.
#[derive(Clone, Copy, Debug, PartialEq, Eq)]
pub struct PdinEntry {
    pub rate: u32,
    pub initial_delay: u32,
}

/// Progressive download information.
#[derive(Clone, Debug)]
pub struct PdinRecord {
    pub entries: Vec<PdinEntry>,
}

impl View for PdinRecord {
    type V = Seq<PdinEntry>;

    open spec fn view(&self) -> Seq<PdinEntry> {
        self.entries@
    }
}

/// The content of a `pdin` payload.
pub open spec fn pdin_of(b: Seq<u8>) -> Result<Seq<PdinEntry>> {
    if b.len() < 4 {
        Err(Error::invalid("MP4: pdin too short"))
    } else if (b.len() - 4) % 8 != 0 {
        Err(Error::invalid("MP4: pdin payload not a multiple of 8 bytes (rate + initial_delay pairs)"))
    } else {
        Ok(
            Seq::new(
                ((b.len() - 4) / 8) as nat,
                |i: int| PdinEntry { rate: be32(b, 4 + 8 * i), initial_delay: be32(b, 8 + 8 * i) },
            ),
        )
    }
}

/// Parses progressive download information.
pub fn parse_pdin(body: &[u8]) -> (r: Result<PdinRecord>)
    ensures
        seen(r) == pdin_of(body@),
{
    let len: usize = body.len();
    if len < 4 {
        return Err(Error::invalid("MP4: pdin too short"));
    }
    if (len - 4) % 8 != 0 {
        return Err(Error::invalid("MP4: pdin payload not a multiple of 8 bytes (rate + initial_delay pairs)"));
    }
    let mut entries: Vec<PdinEntry> = Vec::new();
    let mut p: usize = 4;
    while p < len
        invariant
            len == body@.len(),
            4 <= p <= len,
            (len - 4) % 8 == 0,
            (p - 4) % 8 == 0,
            entries@ =~= Seq::new(
                ((p - 4) / 8) as nat,
                |i: int| PdinEntry { rate: be32(body@, 4 + 8 * i), initial_delay: be32(body@, 8 + 8 * i) },
            ),
        decreases len - p,
    {
        entries.push(PdinEntry { rate: read_u32(body, p), initial_delay: read_u32(body, p + 4) });
        p += 8;
    }
    Ok(PdinRecord { entries })
}

/// Parses the payload of a `pdin` box.
pub fn parse_pdin_box(body: &[u8]) -> (r: Result<PdinRecord>)
    ensures
        seen(r) == pdin_of(body@),
{
    parse_pdin(body)
}

/// A child of a track extension properties box.
#[derive(Clone, Copy, Debug, PartialEq, Eq)]
pub struct TrepChild {
    pub fourcc: [u8; 4],
    /// The size of its payload, as far as the box holds it.
    pub payload_len: usize,
}

/// Track extension properties.
#[derive(Clone, Debug)]
pub struct TrepRecord {
    pub track_id: u32,
    pub children: Vec<TrepChild>,
}

/// The model of `TrepRecord`.
pub ghost struct TrepModel {
    pub track_id: u32,
    pub children: Seq<TrepChild>,
}

impl View for TrepRecord {
    type V = TrepModel;

    open spec fn view(&self) -> TrepModel {
        TrepModel { track_id: self.track_id, children: self.children@ }
    }
}

/// The header size and the declared size of the child at byte `off`. A size of 0 stands for
/// all that is left; the large form needs sixteen bytes.
pub open spec fn trep_extent(b: Seq<u8>, off: int) -> Option<(int, int)> {
    if be32(b, off) == 0 {
        Some((8, b.len() - off))
    } else if be32(b, off) == 1 {
        if off + 16 > b.len() { None } else { Some((16, be64(b, off + 8) as int)) }
    } else {
        Some((8, be32(b, off) as int))
    }
}

/// The children from byte `off` on, behind those in `acc`. The last one is cut at the end of
/// the box, and a header that is malformed or cut ends the list.
pub open spec fn trep_children(b: Seq<u8>, off: int, acc: Seq<TrepChild>) -> Seq<TrepChild>
    decreases b.len() - off,
{
    if off + 8 > b.len() {
        acc
    } else {
        match trep_extent(b, off) {
            None => acc,
            Some((header, size)) => if size < header {
                acc
            } else {
                let left = b.len() - off;
                let effective = if size < left { size } else { left };
                let more = acc.push(
                    TrepChild { fourcc: code_at(b, off + 4), payload_len: (effective - header) as usize },
                );
                if effective < size || effective <= 0 {
                    more
                } else {
                    trep_children(b, off + effective, more)
                }
            },
        }
    }
}

/// The content of a `trep` payload.
pub open spec fn trep_of(b: Seq<u8>) -> Result<TrepModel> {
    if b.len() < 4 {
        Err(Error::invalid("MP4: trep too short for FullBox preamble"))
    } else if b.len() < 8 {
        Err(Error::invalid("MP4: trep truncated track_id"))
    } else {
        Ok(TrepModel { track_id: be32(b, 4), children: trep_children(b, 8, Seq::empty()) })
    }
}

/// Parses track extension properties.
pub fn parse_trep(body: &[u8]) -> (r: Result<TrepRecord>)
    ensures
        seen(r) == trep_of(body@),
{
    let len: usize = body.len();
    if len < 4 {
        return Err(Error::invalid("MP4: trep too short for FullBox preamble"));
    }
    if len < 8 {
        return Err(Error::invalid("MP4: trep truncated track_id"));
    }
    let track_id: u32 = read_u32(body, 4);
    let mut children: Vec<TrepChild> = Vec::new();
    let mut off: usize = 8;
    while len - off >= 8
        invariant
            len == body@.len(),
            8 <= off <= len,
            track_id == be32(body@, 4),
            trep_children(body@, 8, Seq::empty()) == trep_children(body@, off as int, children@),
        decreases len - off,
    {
        let left: usize = len - off;
        let size32: u32 = read_u32(body, off);
        let mut header: usize = 8;
        let mut size: u64 = size32 as u64;
        if size32 == 0 {
            size = left as u64;
        } else if size32 == 1 {
            if left < 16 {
                return Ok(TrepRecord { track_id, children });
            }
            header = 16;
            size = read_u64(body, off + 8);
        }
        if size < header as u64 {
            return Ok(TrepRecord { track_id, children });
        }
        let effective: usize = if size < left as u64 { size as usize } else { left };
        children.push(TrepChild { fourcc: read_code(body, off + 4), payload_len: effective - header });
        if (effective as u64) < size {
            return Ok(TrepRecord { track_id, children });
        }
        off += effective;
    }
    Ok(TrepRecord { track_id, children })
}

/// Parses the payload of a `trep` box.
pub fn parse_trep_box(body: &[u8]) -> (r: Result<TrepRecord>)
    ensures
        seen(r) == trep_of(body@),
{
    parse_trep(body)
}

/// The payloads of the children of a `trep` payload, and their headers, all lie in the payload.
pub proof fn law_trep_children_fit(b: Seq<u8>, off: int, acc: Seq<TrepChild>, room: int)
    requires
        0 <= off <= b.len() <= usize::MAX,
        trep_sizes(acc) <= room,
    ensures
        trep_sizes(trep_children(b, off, acc)) <= room + b.len() - off,
    decreases b.len() - off,
{
    if off + 8 <= b.len() {
        if let Some((header, size)) = trep_extent(b, off) {
            if size >= header {
                let left = b.len() - off;
                let effective = if size < left { size } else { left };
                let x = TrepChild { fourcc: code_at(b, off + 4), payload_len: (effective - header) as usize };
                assert(acc.push(x).drop_last() =~= acc);
                if effective == size {
                    law_trep_children_fit(b, off + effective, acc.push(x), room + effective);
                }
            }
        }
    }
}

/// The sizes of children with their headers of at least eight bytes each.
pub open spec fn trep_sizes(s: Seq<TrepChild>) -> int
    decreases s.len(),
{
    if s.len() == 0 { 0 } else { trep_sizes(s.drop_last()) + 8 + s.last().payload_len }
}

/// How a level is assigned to samples.
#[derive(Clone, Copy, Debug, PartialEq, Eq)]
pub struct LevaEntry {
    pub track_id: u32,
    pub padding_flag: bool,
    pub assignment_type: u8,
    pub grouping_type: u32,
    pub grouping_type_parameter: u32,
    pub sub_track_id: u32,
}

/// Level assignment.
#[derive(Clone, Debug)]
pub struct LevaRecord {
    pub entries: Vec<LevaEntry>,
}

impl View for LevaRecord {
    type V = Seq<LevaEntry>;

    open spec fn view(&self) -> Seq<LevaEntry> {
        self.entries@
    }
}

/// The entry at byte `off` of a `leva` payload, and where the next one starts. The type of
/// assignment decides which fields follow; those that do not are 0.
pub open spec fn leva_entry_at(b: Seq<u8>, off: int) -> Result<(LevaEntry, int)> {
    let at = b[off + 4] % 128;
    let plain = LevaEntry {
        track_id: be32(b, off),
        padding_flag: b[off + 4] >= 128,
        assignment_type: at,
        grouping_type: 0,
        grouping_type_parameter: 0,
        sub_track_id: 0,
    };
    if b.len() < off + 5 {
        Err(Error::invalid("MP4: leva truncated entry header (need 5 bytes for track_id+padding+assignment)"))
    } else if at == 0 {
        if b.len() < off + 9 {
            Err(Error::invalid("MP4: leva truncated grouping_type for assignment_type=0"))
        } else {
            Ok((LevaEntry { grouping_type: be32(b, off + 5), ..plain }, off + 9))
        }
    } else if at == 1 {
        if b.len() < off + 13 {
            Err(Error::invalid("MP4: leva truncated grouping_type/parameter for assignment_type=1"))
        } else {
            Ok(
                (
                    LevaEntry {
                        grouping_type: be32(b, off + 5),
                        grouping_type_parameter: be32(b, off + 9),
                        ..plain
                    },
                    off + 13,
                ),
            )
        }
    } else if at == 4 {
        if b.len() < off + 9 {
            Err(Error::invalid("MP4: leva truncated sub_track_id for assignment_type=4"))
        } else {
            Ok((LevaEntry { sub_track_id: be32(b, off + 5), ..plain }, off + 9))
        }
    } else {
        Ok((plain, off + 5))
    }
}

/// `n` entries from byte `off` on, behind those in `acc`.
pub open spec fn leva_entries(b: Seq<u8>, off: int, n: nat, acc: Seq<LevaEntry>) -> Result<(Seq<LevaEntry>, int)> {
    items(b, off, n, acc, |b: Seq<u8>, off: int| leva_entry_at(b, off))
}

/// The content of a `leva` payload.
pub open spec fn leva_of(b: Seq<u8>) -> Result<Seq<LevaEntry>> {
    if b.len() < 4 {
        Err(Error::invalid("MP4: leva too short for FullBox preamble"))
    } else if b.len() < 5 {
        Err(Error::invalid("MP4: leva missing level_count byte"))
    } else {
        match leva_entries(b, 5, b[4] as nat, Seq::empty()) {
            Err(e) => Err(e),
            Ok((entries, _)) => Ok(entries),
        }
    }
}

/// Reads the entry at byte `off`.
fn read_leva_entry(body: &[u8], off: usize) -> (r: Result<(LevaEntry, usize)>)
    requires
        off <= body@.len(),
    ensures
        match r {
            Ok((e, next)) => {
                &&& leva_entry_at(body@, off as int) == Ok::<(LevaEntry, int), Error>((e, next as int))
                &&& off <= next <= body@.len()
            },
            Err(e) => leva_entry_at(body@, off as int) == Err::<(LevaEntry, int), Error>(e),
        },
{
    let left: usize = body.len() - off;
    if left < 5 {
        return Err(
            Error::invalid("MP4: leva truncated entry header (need 5 bytes for track_id+padding+assignment)"),
        );
    }
    let packed: u8 = body[off + 4];
    let mut e = LevaEntry {
        track_id: read_u32(body, off),
        padding_flag: packed >= 128,
        assignment_type: packed % 128,
        grouping_type: 0,
        grouping_type_parameter: 0,
        sub_track_id: 0,
    };
    if e.assignment_type == 0 {
        if left < 9 {
            return Err(Error::invalid("MP4: leva truncated grouping_type for assignment_type=0"));
        }
        e.grouping_type = read_u32(body, off + 5);
        Ok((e, off + 9))
    } else if e.assignment_type == 1 {
        if left < 13 {
            return Err(Error::invalid("MP4: leva truncated grouping_type/parameter for assignment_type=1"));
        }
        e.grouping_type = read_u32(body, off + 5);
        e.grouping_type_parameter = read_u32(body, off + 9);
        Ok((e, off + 13))
    } else if e.assignment_type == 4 {
        if left < 9 {
            return Err(Error::invalid("MP4: leva truncated sub_track_id for assignment_type=4"));
        }
        e.sub_track_id = read_u32(body, off + 5);
        Ok((e, off + 9))
    } else {
        Ok((e, off + 5))
    }
}

/// Parses the level assignment.
pub fn parse_leva(body: &[u8]) -> (r: Result<LevaRecord>)
    ensures
        seen(r) == leva_of(body@),
{
    if body.len() < 4 {
        return Err(Error::invalid("MP4: leva too short for FullBox preamble"));
    }
    if body.len() < 5 {
        return Err(Error::invalid("MP4: leva missing level_count byte"));
    }
    let count: u8 = body[4];
    let mut entries: Vec<LevaEntry> = Vec::new();
    let mut off: usize = 5;
    let mut i: u8 = 0;
    proof { assert(entries@ =~= Seq::<LevaEntry>::empty()); }
    while i < count
        invariant
            5 <= off <= body@.len(),
            i <= count,
            count == body@[4],
            leva_entries(body@, 5, count as nat, Seq::empty()) == leva_entries(
                body@,
                off as int,
                (count - i) as nat,
                entries@,
            ),
        decreases count - i,
    {
        let (e, next) = read_leva_entry(body, off)?;
        entries.push(e);
        off = next;
        i += 1;
    }
    Ok(LevaRecord { entries })
}

/// Parses the payload of a `leva` box.
pub fn parse_leva_box(body: &[u8]) -> (r: Result<LevaRecord>)
    ensures
        seen(r) == leva_of(body@),
{
    parse_leva(body)
}

/// When a media time was produced.
#[derive(Clone, Copy, Debug)]
pub struct PrftRecord {
    pub reference_track_id: u32,
    pub ntp_timestamp: u64,
    pub media_time: u64,
    pub version: u8,
}

/// The content of a `prft` payload.
pub open spec fn prft_of(b: Seq<u8>) -> Result<Option<PrftRecord>> {
    if b.len() < 16 {
        Err(Error::invalid("MP4: prft too short"))
    } else if b[0] == 0 && b.len() < 20 {
        Err(Error::invalid("MP4: prft v0 truncated"))
    } else if b[0] != 0 && b.len() < 24 {
        Err(Error::invalid("MP4: prft v1 truncated"))
    } else {
        Ok(
            Some(
                PrftRecord {
                    reference_track_id: be32(b, 4),
                    ntp_timestamp: be64(b, 8),
                    media_time: if b[0] == 0 { be32(b, 16) as u64 } else { be64(b, 16) },
                    version: b[0],
                },
            ),
        )
    }
}

/// Parses a producer reference time.
pub fn parse_prft(body: &[u8]) -> (r: Result<Option<PrftRecord>>)
    ensures
        r == prft_of(body@),
{
    if body.len() < 16 {
        return Err(Error::invalid("MP4: prft too short"));
    }
    let version: u8 = body[0];
    let media_time: u64;
    if version == 0 {
        if body.len() < 20 {
            return Err(Error::invalid("MP4: prft v0 truncated"));
        }
        media_time = read_u32(body, 16) as u64;
    } else {
        if body.len() < 24 {
            return Err(Error::invalid("MP4: prft v1 truncated"));
        }
        media_time = read_u64(body, 16);
    }
    Ok(
        Some(
            PrftRecord {
                reference_track_id: read_u32(body, 4),
                ntp_timestamp: read_u64(body, 8),
                media_time,
                version,
            },
        ),
    )
}

/// Parses the payload of a `prft` box.
pub fn parse_prft_box(body: &[u8]) -> (r: Result<Option<PrftRecord>>)
    ensures
        r == prft_of(body@),
{
    parse_prft(body)
}

/// The random access points of a track in the fragments of a file.
#[derive(Clone, Debug)]
pub struct TfraRecord {
    pub track_id: u32,
    pub entries: Vec<TfraEntry>,
}

/// The model of `TfraRecord`.
pub ghost struct TfraModel {
    pub track_id: u32,
    pub entries: Seq<TfraEntry>,
}

impl View for TfraRecord {
    type V = TfraModel;

    open spec fn view(&self) -> TfraModel {
        TfraModel { track_id: self.track_id, entries: self.entries@ }
    }
}

/// A random access point.
#[derive(Clone, Copy, Debug)]
pub struct TfraEntry {
    pub time: u64,
    /// Where in the file its movie fragment starts.
    pub moof_offset: u64,
    pub traf_number: u32,
    pub trun_number: u32,
    pub sample_number: u32,
}

/// The big-endian number of the `n` bytes from byte `p` on, of which the last four count.
pub open spec fn be_var(b: Seq<u8>, p: int, n: nat) -> u32
    decreases n,
{
    if n == 0 {
        0
    } else {
        ((be_var(b, p, (n - 1) as nat) % 0x100_0000) * 0x100 + b[p + n - 1]) as u32
    }
}

/// Reads a big-endian number of any length, of which the last four bytes count.
pub fn read_var_u32(buf: &[u8]) -> (r: u32)
    ensures
        r == be_var(buf@, 0, buf@.len()),
{
    let mut v: u32 = 0;
    let mut i: usize = 0;
    while i < buf.len()
        invariant
            i <= buf@.len(),
            v == be_var(buf@, 0, i as nat),
        decreases buf@.len() - i,
    {
        v = (v % 0x100_0000) * 0x100 + buf[i] as u32;
        i += 1;
    }
    v
}

/// How many bytes the three numbers of an entry of a `tfra` payload take.
pub open spec fn tfra_widths(b: Seq<u8>) -> (int, int, int) {
    (b[11] as int / 16 % 4 + 1, b[11] as int / 4 % 4 + 1, b[11] as int % 4 + 1)
}

/// The size of an entry of a `tfra` payload.
pub open spec fn tfra_row(b: Seq<u8>) -> int {
    let (w1, w2, w3) = tfra_widths(b);
    (if b[0] == 1 { 16int } else { 8int }) + w1 + w2 + w3
}

/// The number in `w` bytes at byte `p`.
pub open spec fn tfra_number(b: Seq<u8>, p: int, w: int) -> u32 {
    be_var(b.subrange(p, p + w), 0, w as nat)
}

/// The entry at byte `p` of a `tfra` payload.
pub open spec fn tfra_entry_at(b: Seq<u8>, p: int) -> TfraEntry {
    let (w1, w2, w3) = tfra_widths(b);
    let q = p + (if b[0] == 1 { 16int } else { 8int });
    TfraEntry {
        time: if b[0] == 1 { be64(b, p) } else { be32(b, p) as u64 },
        moof_offset: if b[0] == 1 { be64(b, p + 8) } else { be32(b, p + 4) as u64 },
        traf_number: tfra_number(b, q, w1),
        trun_number: tfra_number(b, q + w1, w2),
        sample_number: tfra_number(b, q + w1 + w2, w3),
    }
}

/// The first `n` entries of a `tfra` payload.
pub open spec fn tfra_entries(b: Seq<u8>, n: nat) -> Seq<TfraEntry> {
    Seq::new(n, |i: int| tfra_entry_at(b, 16 + tfra_row(b) * i))
}

/// The content of a `tfra` payload.
pub open spec fn tfra_of(b: Seq<u8>) -> Result<Option<TfraModel>> {
    if b.len() < 12 {
        Err(Error::invalid("MP4: tfra too short"))
    } else if b.len() < 16 {
        Err(Error::invalid("MP4: tfra entry_count truncated"))
    } else if !fits(b, 16, be32(b, 12), tfra_row(b)) {
        Err(Error::invalid("MP4: tfra entries truncated"))
    } else {
        Ok(Some(TfraModel { track_id: be32(b, 4), entries: tfra_entries(b, be32(b, 12) as nat) }))
    }
}

/// Reads the entry at byte `p`.
fn read_tfra_entry(body: &[u8], p: usize) -> (e: TfraEntry)
    requires
        16 <= p,
        p + tfra_row(body@) <= body@.len(),
    ensures
        e == tfra_entry_at(body@, p as int),
{
    let len: usize = body.len();
    let wide = body[0] == 1;
    let w1: usize = (body[11] / 16 % 4) as usize + 1;
    let w2: usize = (body[11] / 4 % 4) as usize + 1;
    let w3: usize = (body[11] % 4) as usize + 1;
    assert(p + 8 + w1 + w2 + w3 <= len);
    let q: usize = if wide { p + 16 } else { p + 8 };
    TfraEntry {
        time: if wide { read_u64(body, p) } else { read_u32(body, p) as u64 },
        moof_offset: if wide { read_u64(body, p + 8) } else { read_u32(body, p + 4) as u64 },
        traf_number: read_var_u32(&body[q..q + w1]),
        trun_number: read_var_u32(&body[q + w1..q + w1 + w2]),
        sample_number: read_var_u32(&body[q + w1 + w2..q + w1 + w2 + w3]),
    }
}

/// Parses the random access points of a track.
pub fn parse_tfra(body: &[u8]) -> (r: Result<Option<TfraRecord>>)
    ensures
        seen_opt(r) == tfra_of(body@),
{
    let len: usize = body.len();
    if len < 12 {
        return Err(Error::invalid("MP4: tfra too short"));
    }
    if len < 16 {
        return Err(Error::invalid("MP4: tfra entry_count truncated"));
    }
    let track_id: u32 = read_u32(body, 4);
    let count: u32 = read_u32(body, 12);
    let base: u32 = if body[0] == 1 { 16 } else { 8 };
    let row: u32 = base + (body[11] / 16 % 4) as u32 + 1 + (body[11] / 4 % 4) as u32 + 1 + (body[11] % 4) as u32 + 1;
    if !rows_fit(body, 16, count, row) {
        return Err(Error::invalid("MP4: tfra entries truncated"));
    }
    let mut entries: Vec<TfraEntry> = Vec::new();
    let mut i: u32 = 0;
    let mut p: usize = 16;
    proof {
        assert(row * count == count * row) by (nonlinear_arith);
        assert(row * 0 == 0);
    }
    while i < count
        invariant
            len == body@.len(),
            16 <= len,
            i <= count,
            row == tfra_row(body@),
            p == 16 + row * i,
            16 + row * count <= len,
            entries@ =~= tfra_entries(body@, i as nat),
        decreases count - i,
    {
        proof {
            assert(row * (i + 1) == row * i + row) by (nonlinear_arith);
            assert(row * (i + 1) <= row * count) by (nonlinear_arith)
                requires i + 1 <= count, row >= 0;
            assert(row * i >= 0) by (nonlinear_arith)
                requires row >= 0, i >= 0;
        }
        entries.push(read_tfra_entry(body, p));
        p += row as usize;
        i += 1;
    }
    Ok(Some(TfraRecord { track_id, entries }))
}

/// What one child of the fragment random access box adds.
pub open spec fn mfra_step(s: Seq<TfraModel>, c: Child) -> Outcome<Seq<TfraModel>> {
    if c.kind == TFRA {
        match body_of(c) {
            Err(e) => (s, Err(e)),
            Ok(d) => match tfra_of(d) {
                Err(e) => (s, Err(e)),
                Ok(Some(m)) => (s.push(m), Ok(())),
                Ok(None) => (s, Ok(())),
            },
        }
    } else {
        (s, Ok(()))
    }
}

/// What the fragment random access box from byte `pos` on adds.
pub open spec fn mfra_from(b: Seq<u8>, pos: int, s: Seq<TfraModel>) -> Outcome<Seq<TfraModel>> {
    walk(b, pos, s, |s: Seq<TfraModel>, c: Child| mfra_step(s, c))
}

/// Parses the fragment random access box, behind what is in `out`.
pub fn parse_mfra(body: &[u8], out: &mut Vec<TfraRecord>) -> (r: Result<()>)
    ensures
        (views(final(out)@), r) == mfra_from(body@, 0, views(old(out)@)),
{
    let mut pos: usize = 0;
    while pos < body.len()
        invariant
            pos <= body@.len(),
            mfra_from(body@, 0, views(old(out)@)) == mfra_from(body@, pos as int, views(out@)),
        decreases body@.len() - pos,
    {
        let c = next_child(body, pos)?;
        if c.kind == TFRA {
            let d = c.body()?;
            if let Some(t) = parse_tfra(d)? {
                proof { lemma_views_push(out@, t); }
                out.push(t);
            }
        }
        pos = c.next;
    }
    Ok(())
}

/// Parses the payload of an `mfra` box.
pub fn parse_mfra_box(body: &[u8]) -> (r: Result<Vec<TfraRecord>>)
    ensures
        match mfra_from(body@, 0, Seq::empty()) {
            (s, Ok(_)) => r matches Ok(v) && views(v@) == s,
            (_, Err(e)) => r matches Err(e2) && e2 == e,
        },
{
    let mut out: Vec<TfraRecord> = Vec::new();
    proof { assert(views(out@) =~= Seq::<TfraModel>::empty()); }
    parse_mfra(body, &mut out)?;
    Ok(out)
}

}
