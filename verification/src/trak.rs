//! The boxes under `trak`.
use vstd::prelude::*;
use vstd::utf8::{decode_utf8, valid_utf8};
use crate::auxinfo::{parse_saio, parse_saiz, parse_subs, saio_of, saiz_of, subs_of};
use crate::boxes::{
    body_of, child_at, has_child, header_at, lemma_views_push, lemma_walk_keeps, next_child, next_pos, opt_view,
    views, walk, walk_lenient, Child, Outcome,
};
use crate::bytes::{
    be16, be32, be64, code_at, read_code, read_u16, read_u32, read_u64, s16, s32, s64, to_i16, to_i32,
    to_i64,
};
use crate::entries::{parse_stsd, stsd_of};
use crate::error::{seen_opt, Error, Result};
use crate::groups::{csgp_of, parse_csgp, parse_sbgp, parse_sgpd, sbgp_of, sgpd_of};
use crate::kinds::{
    CO64, CPRT, CSGP, CSLG, CTTS, EDTS, ELNG, ELST, HDLR, KIND, MDHD, MDIA, MINF, PADB, SAIO, SAIZ,
    SBGP, SBTL, SDTP, SGPD, SOUN, STBL, STCO, STDP, STRD, STRI, STRK, STSC, STSD, STSG, STSH, STSS,
    STSZ, STTS, STZ2, SUBS, SUBT, TEXT, TKHD, TREF, TRGR, TSEL, UDTA, VIDE, VMHD,
};
use crate::tables::{
    co64_of, cslg_of, ctts_of, fits, padb_of, parse_co64, parse_cslg, parse_ctts, parse_padb,
    parse_sdtp, parse_stco, parse_stdp, parse_stsc, parse_stsh, parse_stss, parse_stsz, parse_stts,
    parse_stz2, parse_vmhd, read_words, rows_fit, sdtp_of, stco_of, stdp_of, stsc_of, stsh_of, stss_of,
    stsz_of, stts_of, stz2_of, vmhd_of, words,
};
use crate::text::{decode_utf8_or_utf16, decoded_text, find_nul, first_nul, from_utf8, is_empty};
use crate::track::{
    CopyrightModel, CopyrightRecord, ElstEntry, MediaType, SubTrack, SubTrackModel, SubTrackSampleGroup,
    SubTrackSampleGroupModel, Track, TrackModel, TrexDefaults, TselBox, TselModel,
};

verus! {

/// What one box of the sample table says of a track. A table replaces one that came
/// before it; groupings, subsamples and auxiliary information add up.
pub open spec fn stbl_box(t: TrackModel, kind: u32, d: Seq<u8>) -> Outcome<TrackModel> {
    if kind == STSD {
        stsd_of(t, d)
    } else if kind == STTS {
        match stts_of(d) {
            Err(e) => (t, Err(e)),
            Ok(x) => (TrackModel { stts: x, ..t }, Ok(())),
        }
    } else if kind == STSC {
        match stsc_of(d) {
            Err(e) => (t, Err(e)),
            Ok(x) => (TrackModel { stsc: x, ..t }, Ok(())),
        }
    } else if kind == STSZ {
        match stsz_of(d) {
            Err(e) => (t, Err(e)),
            Ok(x) => (TrackModel { stsz: x, ..t }, Ok(())),
        }
    } else if kind == STZ2 {
        match stz2_of(d) {
            Err(e) => (t, Err(e)),
            Ok(x) => (TrackModel { stsz: x, ..t }, Ok(())),
        }
    } else if kind == STCO {
        match stco_of(d) {
            Err(e) => (t, Err(e)),
            Ok(x) => (TrackModel { chunk_offsets: x, ..t }, Ok(())),
        }
    } else if kind == CO64 {
        match co64_of(d) {
            Err(e) => (t, Err(e)),
            Ok(x) => (TrackModel { chunk_offsets: x, ..t }, Ok(())),
        }
    } else if kind == STSS {
        match stss_of(d) {
            Err(e) => (t, Err(e)),
            Ok(x) => (TrackModel { stss: x, ..t }, Ok(())),
        }
    } else if kind == STSH {
        match stsh_of(d) {
            Err(e) => (t, Err(e)),
            Ok(x) => (TrackModel { stsh: x, ..t }, Ok(())),
        }
    } else if kind == SDTP {
        match sdtp_of(d) {
            Err(e) => (t, Err(e)),
            Ok(x) => (TrackModel { sdtp: x, ..t }, Ok(())),
        }
    } else if kind == STDP {
        match stdp_of(d) {
            Err(e) => (t, Err(e)),
            Ok(x) => (TrackModel { stdp: x, ..t }, Ok(())),
        }
    } else if kind == PADB {
        match padb_of(d) {
            Err(e) => (t, Err(e)),
            Ok(x) => (TrackModel { padb: x, ..t }, Ok(())),
        }
    } else if kind == CTTS {
        match ctts_of(d) {
            Err(e) => (t, Err(e)),
            Ok(x) => (TrackModel { ctts: x, ..t }, Ok(())),
        }
    } else if kind == CSLG {
        match cslg_of(d) {
            Err(e) => (t, Err(e)),
            Ok(x) => (TrackModel { cslg: Some(x), ..t }, Ok(())),
        }
    } else if kind == SBGP {
        match sbgp_of(d) {
            Err(e) => (t, Err(e)),
            Ok(x) => (TrackModel { sbgp: t.sbgp.push(x), ..t }, Ok(())),
        }
    } else if kind == SGPD {
        match sgpd_of(d) {
            Err(e) => (t, Err(e)),
            Ok(x) => (TrackModel { sgpd: t.sgpd.push(x), ..t }, Ok(())),
        }
    } else if kind == CSGP {
        match csgp_of(d) {
            Err(e) => (t, Err(e)),
            Ok(x) => (TrackModel { csgp: t.csgp.push(x), ..t }, Ok(())),
        }
    } else if kind == SUBS {
        match subs_of(d) {
            Err(e) => (t, Err(e)),
            Ok(x) => (TrackModel { subs: t.subs.push(x), ..t }, Ok(())),
        }
    } else if kind == SAIZ {
        match saiz_of(d) {
            Err(e) => (t, Err(e)),
            Ok(x) => (TrackModel { saiz: t.saiz.push(x), ..t }, Ok(())),
        }
    } else if kind == SAIO {
        match saio_of(d) {
            Err(e) => (t, Err(e)),
            Ok(x) => (TrackModel { saio: t.saio.push(x), ..t }, Ok(())),
        }
    } else {
        (t, Ok(()))
    }
}

/// Takes over one box of the sample table.
fn apply_stbl_box(kind: u32, d: &[u8], t: &mut Track) -> (r: Result<()>)
    ensures
        (final(t)@, r) == stbl_box(old(t)@, kind, d@),
{
    if kind == STSD {
        return parse_stsd(d, t);
    }
    if kind == STTS {
        t.stts = parse_stts(d)?;
    } else if kind == STSC {
        t.stsc = parse_stsc(d)?;
    } else if kind == STSZ {
        t.stsz = parse_stsz(d)?;
    } else if kind == STZ2 {
        t.stsz = parse_stz2(d)?;
    } else if kind == STCO {
        t.chunk_offsets = parse_stco(d)?;
    } else if kind == CO64 {
        t.chunk_offsets = parse_co64(d)?;
    } else if kind == STSS {
        t.stss = parse_stss(d)?;
    } else if kind == STSH {
        t.stsh = parse_stsh(d)?;
    } else if kind == SDTP {
        t.sdtp = parse_sdtp(d)?;
    } else if kind == STDP {
        t.stdp = parse_stdp(d)?;
    } else if kind == PADB {
        t.padb = parse_padb(d)?;
    } else if kind == CTTS {
        t.ctts = parse_ctts(d)?;
    } else if kind == CSLG {
        t.cslg = Some(parse_cslg(d)?);
    } else if kind == SBGP {
        let x = parse_sbgp(d)?;
        proof { lemma_views_push(t.sbgp@, x); }
        t.sbgp.push(x);
    } else if kind == SGPD {
        let x = parse_sgpd(d)?;
        proof { lemma_views_push(t.sgpd@, x); }
        t.sgpd.push(x);
    } else if kind == CSGP {
        let x = parse_csgp(d)?;
        proof { lemma_views_push(t.csgp@, x); }
        t.csgp.push(x);
    } else if kind == SUBS {
        let x = parse_subs(d)?;
        proof { lemma_views_push(t.subs@, x); }
        t.subs.push(x);
    } else if kind == SAIZ {
        let x = parse_saiz(d)?;
        proof { lemma_views_push(t.saiz@, x); }
        t.saiz.push(x);
    } else if kind == SAIO {
        let x = parse_saio(d)?;
        proof { lemma_views_push(t.saio@, x); }
        t.saio.push(x);
    }
    Ok(())
}

/// What one child of the sample table says of a track.
pub open spec fn stbl_step(t: TrackModel, c: Child) -> Outcome<TrackModel> {
    match body_of(c) {
        Err(e) => (t, Err(e)),
        Ok(d) => stbl_box(t, c.kind, d),
    }
}

/// What the sample table says of a track from byte `pos` on.
pub open spec fn stbl_from(b: Seq<u8>, pos: int, t: TrackModel) -> Outcome<TrackModel> {
    walk(b, pos, t, |t: TrackModel, c: Child| stbl_step(t, c))
}

/// Parses the sample table.
pub fn parse_stbl(body: &[u8], t: &mut Track) -> (r: Result<()>)
    ensures
        (final(t)@, r) == stbl_from(body@, 0, old(t)@),
{
    let mut pos: usize = 0;
    while pos < body.len()
        invariant
            pos <= body@.len(),
            stbl_from(body@, 0, old(t)@) == stbl_from(body@, pos as int, t@),
        decreases body@.len() - pos,
    {
        let c = next_child(body, pos)?;
        let d = c.body()?;
        apply_stbl_box(c.kind, d, t)?;
        pos = c.next;
    }
    Ok(())
}

/// What one child of the media information box says of a track. Only the first well-formed
/// video media header counts.
pub open spec fn minf_step(t: TrackModel, c: Child) -> Outcome<TrackModel> {
    if c.kind == STBL {
        match body_of(c) {
            Err(e) => (t, Err(e)),
            Ok(d) => stbl_from(d, 0, t),
        }
    } else if c.kind == VMHD {
        match body_of(c) {
            Err(e) => (t, Err(e)),
            Ok(d) => match vmhd_of(d) {
                Ok(v) if t.vmhd is None => (TrackModel { vmhd: Some(v), ..t }, Ok(())),
                _ => (t, Ok(())),
            },
        }
    } else {
        (t, Ok(()))
    }
}

/// What the media information box says of a track from byte `pos` on.
pub open spec fn minf_from(b: Seq<u8>, pos: int, t: TrackModel) -> Outcome<TrackModel> {
    walk(b, pos, t, |t: TrackModel, c: Child| minf_step(t, c))
}

/// Parses the media information box.
pub fn parse_minf(body: &[u8], t: &mut Track) -> (r: Result<()>)
    ensures
        (final(t)@, r) == minf_from(body@, 0, old(t)@),
{
    let mut pos: usize = 0;
    while pos < body.len()
        invariant
            pos <= body@.len(),
            minf_from(body@, 0, old(t)@) == minf_from(body@, pos as int, t@),
        decreases body@.len() - pos,
    {
        let c = next_child(body, pos)?;
        if c.kind == STBL {
            let d = c.body()?;
            parse_stbl(d, t)?;
        } else if c.kind == VMHD {
            let d = c.body()?;
            if t.vmhd.is_none() {
                if let Ok(v) = parse_vmhd(d) {
                    t.vmhd = Some(v);
                }
            }
        }
        pos = c.next;
    }
    Ok(())
}

/// What the media header says of a track.
pub open spec fn mdhd_of(t: TrackModel, b: Seq<u8>) -> Outcome<TrackModel> {
    if b.len() < 24 {
        (t, Err(Error::invalid("MP4: mdhd too short")))
    } else if b[0] == 0 {
        (TrackModel { timescale: be32(b, 12), duration: Some(be32(b, 16) as u64), ..t }, Ok(()))
    } else if b.len() < 32 {
        (t, Err(Error::invalid("MP4: mdhd v1 too short")))
    } else {
        (TrackModel { timescale: be32(b, 20), duration: Some(be64(b, 24)), ..t }, Ok(()))
    }
}

/// Parses the media header.
pub fn parse_mdhd(body: &[u8], t: &mut Track) -> (r: Result<()>)
    ensures
        (final(t)@, r) == mdhd_of(old(t)@, body@),
{
    if body.len() < 24 {
        return Err(Error::invalid("MP4: mdhd too short"));
    }
    if body[0] == 0 {
        t.timescale = read_u32(body, 12);
        t.duration = Some(read_u32(body, 16) as u64);
    } else {
        if body.len() < 32 {
            return Err(Error::invalid("MP4: mdhd v1 too short"));
        }
        t.timescale = read_u32(body, 20);
        t.duration = Some(read_u64(body, 24));
    }
    Ok(())
}

/// The bytes of a zero-terminated string that starts at byte `off`; the end of the box
/// stands in for a missing terminator.
pub open spec fn cstr_at(b: Seq<u8>, off: int) -> Seq<u8> {
    let s = b.subrange(off, b.len() as int);
    s.subrange(0, first_nul(s))
}

/// Reads a zero-terminated string of UTF-8 at byte `off`, and gives the index of its terminator.
fn read_cstr(b: &[u8], off: usize) -> (r: (Option<String>, usize))
    requires
        off <= b@.len(),
    ensures
        r.0 is Some <==> valid_utf8(cstr_at(b@, off as int)),
        r.0 matches Some(s) ==> s@ == decode_utf8(cstr_at(b@, off as int)),
        r.1 == off + first_nul(b@.subrange(off as int, b@.len() as int)),
        off <= r.1 <= b@.len(),
{
    let s = &b[off..b.len()];
    let n: usize = find_nul(s);
    (from_utf8(&s[0..n]), off + n)
}

/// What the extended language box says of a track: nothing where the tag is empty or not UTF-8.
pub open spec fn elng_of(t: TrackModel, b: Seq<u8>) -> TrackModel {
    let tag = cstr_at(b, 4);
    if b.len() >= 4 && valid_utf8(tag) && decode_utf8(tag).len() != 0 {
        TrackModel { elng: Some(decode_utf8(tag)), ..t }
    } else {
        t
    }
}

/// Parses the extended language box.
pub fn parse_elng(body: &[u8], t: &mut Track)
    ensures
        final(t)@ == elng_of(old(t)@, body@),
{
    if body.len() < 4 {
        return;
    }
    let (tag, _) = read_cstr(body, 4);
    if let Some(tag) = tag {
        if !is_empty(&tag) {
            t.elng = Some(tag);
        }
    }
}

/// The kind of media that a handler code stands for.
pub open spec fn handler_media(code: u32) -> MediaType {
    if code == SOUN {
        MediaType::Audio
    } else if code == VIDE {
        MediaType::Video
    } else if code == SUBT || code == SBTL || code == TEXT {
        MediaType::Subtitle
    } else {
        MediaType::Data
    }
}

/// What the handler box says of a track.
pub open spec fn hdlr_of(t: TrackModel, b: Seq<u8>) -> Outcome<TrackModel> {
    if b.len() < 12 {
        (t, Err(Error::invalid("MP4: hdlr too short")))
    } else {
        (TrackModel { media_type: handler_media(be32(b, 8)), ..t }, Ok(()))
    }
}

/// Parses the handler box.
pub fn parse_hdlr(body: &[u8], t: &mut Track) -> (r: Result<()>)
    ensures
        (final(t)@, r) == hdlr_of(old(t)@, body@),
{
    if body.len() < 12 {
        return Err(Error::invalid("MP4: hdlr too short"));
    }
    let code: u32 = read_u32(body, 8);
    t.media_type = if code == SOUN {
        MediaType::Audio
    } else if code == VIDE {
        MediaType::Video
    } else if code == SUBT || code == SBTL || code == TEXT {
        MediaType::Subtitle
    } else {
        MediaType::Data
    };
    Ok(())
}

/// What one child of the media box says of a track.
pub open spec fn mdia_step(t: TrackModel, c: Child) -> Outcome<TrackModel> {
    if c.kind != MDHD && c.kind != ELNG && c.kind != HDLR && c.kind != MINF {
        (t, Ok(()))
    } else {
        match body_of(c) {
            Err(e) => (t, Err(e)),
            Ok(d) => if c.kind == MDHD {
                mdhd_of(t, d)
            } else if c.kind == ELNG {
                (elng_of(t, d), Ok(()))
            } else if c.kind == HDLR {
                hdlr_of(t, d)
            } else {
                minf_from(d, 0, t)
            },
        }
    }
}

/// What the media box says of a track from byte `pos` on.
pub open spec fn mdia_from(b: Seq<u8>, pos: int, t: TrackModel) -> Outcome<TrackModel> {
    walk(b, pos, t, |t: TrackModel, c: Child| mdia_step(t, c))
}

/// Parses the media box.
pub fn parse_mdia(body: &[u8], t: &mut Track) -> (r: Result<()>)
    ensures
        (final(t)@, r) == mdia_from(body@, 0, old(t)@),
{
    let mut pos: usize = 0;
    while pos < body.len()
        invariant
            pos <= body@.len(),
            mdia_from(body@, 0, old(t)@) == mdia_from(body@, pos as int, t@),
        decreases body@.len() - pos,
    {
        let c = next_child(body, pos)?;
        if c.kind == MDHD {
            let d = c.body()?;
            parse_mdhd(d, t)?;
        } else if c.kind == ELNG {
            let d = c.body()?;
            parse_elng(d, t);
        } else if c.kind == HDLR {
            let d = c.body()?;
            parse_hdlr(d, t)?;
        } else if c.kind == MINF {
            let d = c.body()?;
            parse_minf(d, t)?;
        }
        pos = c.next;
    }
    Ok(())
}

/// The segment of an edit list at byte `p`; version 1 has wider fields.
pub open spec fn elst_entry_at(b: Seq<u8>, p: int) -> ElstEntry {
    if b[0] == 1 {
        ElstEntry { segment_duration: be64(b, p), media_time: s64(be64(b, p + 8)), media_rate: be32(b, p + 16) }
    } else {
        ElstEntry {
            segment_duration: be32(b, p) as u64,
            media_time: s32(be32(b, p + 4)) as i64,
            media_rate: be32(b, p + 8),
        }
    }
}

/// The size of a segment of an edit list.
pub open spec fn elst_row(b: Seq<u8>) -> int {
    if b[0] == 1 { 20 } else { 12 }
}

/// The first `n` segments of an edit list.
pub open spec fn elst_entries(b: Seq<u8>, n: nat) -> Seq<ElstEntry> {
    Seq::new(n, |i: int| elst_entry_at(b, 8 + elst_row(b) * i))
}

/// What an edit list says of a track.
pub open spec fn elst_of(t: TrackModel, b: Seq<u8>) -> Outcome<TrackModel> {
    if b.len() < 8 {
        (t, Err(Error::invalid("MP4: elst too short")))
    } else if !fits(b, 8, be32(b, 4), elst_row(b)) {
        (t, Err(Error::invalid("MP4: elst truncated")))
    } else {
        (TrackModel { elst: elst_entries(b, be32(b, 4) as nat), ..t }, Ok(()))
    }
}

/// Parses an edit list.
pub fn parse_elst(body: &[u8], t: &mut Track) -> (r: Result<()>)
    ensures
        (final(t)@, r) == elst_of(old(t)@, body@),
{
    let len: usize = body.len();
    if len < 8 {
        return Err(Error::invalid("MP4: elst too short"));
    }
    let wide = body[0] == 1;
    let row: u32 = if wide { 20 } else { 12 };
    let count: u32 = read_u32(body, 4);
    if !rows_fit(body, 8, count, row) {
        return Err(Error::invalid("MP4: elst truncated"));
    }
    let mut entries: Vec<ElstEntry> = Vec::new();
    let mut i: u32 = 0;
    let mut p: usize = 8;
    while i < count
        invariant
            len == body@.len(),
            len >= 8,
            i <= count,
            wide == (body@[0] == 1),
            row == elst_row(body@),
            p == 8 + (if wide { 20 * i } else { 12 * i }),
            8 + (if wide { 20 * count } else { 12 * count }) <= len,
            entries@ =~= elst_entries(body@, i as nat),
        decreases count - i,
    {
        let e = if wide {
            ElstEntry {
                segment_duration: read_u64(body, p),
                media_time: to_i64(read_u64(body, p + 8)),
                media_rate: read_u32(body, p + 16),
            }
        } else {
            ElstEntry {
                segment_duration: read_u32(body, p) as u64,
                media_time: to_i32(read_u32(body, p + 4)) as i64,
                media_rate: read_u32(body, p + 8),
            }
        };
        assert(e == elst_entry_at(body@, p as int));
        entries.push(e);
        p += row as usize;
        i += 1;
    }
    t.elst = entries;
    Ok(())
}

/// Where the media starts to play: the media time of the first segment that is not empty,
/// or 0 where there is none.
pub open spec fn leading_media_time(elst: Seq<ElstEntry>) -> i64
    decreases elst.len(),
{
    if elst.len() == 0 {
        0
    } else if elst[0].media_time != -1 {
        elst[0].media_time
    } else {
        leading_media_time(elst.drop_first())
    }
}

/// Where the media of a track starts to play.
pub fn elst_leading_media_time(t: &Track) -> (r: i64)
    ensures
        r == leading_media_time(t@.elst),
{
    let mut i: usize = 0;
    proof { assert(t.elst@.subrange(0, t.elst@.len() as int) =~= t.elst@); }
    while i < t.elst.len()
        invariant
            i <= t.elst@.len(),
            leading_media_time(t.elst@) == leading_media_time(t.elst@.subrange(i as int, t.elst@.len() as int)),
        decreases t.elst@.len() - i,
    {
        if t.elst[i].media_time != -1 {
            return t.elst[i].media_time;
        }
        proof {
            let s = t.elst@.subrange(i as int, t.elst@.len() as int);
            assert(s.drop_first() =~= t.elst@.subrange(i + 1, t.elst@.len() as int));
        }
        i += 1;
    }
    0
}

/// What one child of the edit box says of a track.
pub open spec fn edts_step(t: TrackModel, c: Child) -> Outcome<TrackModel> {
    if c.kind == ELST {
        match body_of(c) {
            Err(e) => (t, Err(e)),
            Ok(d) => elst_of(t, d),
        }
    } else {
        (t, Ok(()))
    }
}

/// What the edit box says of a track from byte `pos` on.
pub open spec fn edts_from(b: Seq<u8>, pos: int, t: TrackModel) -> Outcome<TrackModel> {
    walk(b, pos, t, |t: TrackModel, c: Child| edts_step(t, c))
}

/// Parses the edit box.
pub fn parse_edts(body: &[u8], t: &mut Track) -> (r: Result<()>)
    ensures
        (final(t)@, r) == edts_from(body@, 0, old(t)@),
{
    let mut pos: usize = 0;
    while pos < body.len()
        invariant
            pos <= body@.len(),
            edts_from(body@, 0, old(t)@) == edts_from(body@, pos as int, t@),
        decreases body@.len() - pos,
    {
        let c = next_child(body, pos)?;
        if c.kind == ELST {
            let d = c.body()?;
            parse_elst(d, t)?;
        }
        pos = c.next;
    }
    Ok(())
}

/// What the track header says of a track.
pub open spec fn tkhd_of(t: TrackModel, b: Seq<u8>) -> Outcome<TrackModel> {
    let p = if b[0] == 0 { 12int } else { 20int };
    if b.len() == 0 {
        (t, Err(Error::invalid("MP4: tkhd empty")))
    } else if b.len() < p + 4 {
        (t, Err(Error::invalid("MP4: tkhd too short")))
    } else {
        (TrackModel { track_id: be32(b, p), ..t }, Ok(()))
    }
}

/// Parses the track header.
pub fn parse_tkhd(body: &[u8], t: &mut Track) -> (r: Result<()>)
    ensures
        (final(t)@, r) == tkhd_of(old(t)@, body@),
{
    if body.len() == 0 {
        return Err(Error::invalid("MP4: tkhd empty"));
    }
    let p: usize = if body[0] == 0 { 12 } else { 20 };
    if body.len() < p + 4 {
        return Err(Error::invalid("MP4: tkhd too short"));
    }
    t.track_id = read_u32(body, p);
    Ok(())
}

/// The numbers in a sequence that are not 0.
pub open spec fn nonzero(s: Seq<u32>) -> Seq<u32>
    decreases s.len(),
{
    if s.len() == 0 {
        Seq::empty()
    } else if s.last() == 0 {
        nonzero(s.drop_last())
    } else {
        nonzero(s.drop_last()).push(s.last())
    }
}

/// Whether a reference of the given type is among those of a track.
pub open spec fn has_ref(tref: Seq<(Seq<u8>, Seq<u32>)>, fourcc: Seq<u8>) -> bool {
    exists|i: int| 0 <= i < tref.len() && (#[trigger] tref[i]).0 == fourcc
}

/// What one child of the track reference box says of a track. Only the first reference of
/// a type counts.
pub open spec fn tref_step(t: TrackModel, c: Child) -> Outcome<TrackModel> {
    match body_of(c) {
        Err(e) => (t, Err(e)),
        Ok(d) => if d.len() % 4 != 0 {
            (t, Err(Error::invalid("MP4: tref child not a multiple of 4 bytes")))
        } else if has_ref(t.tref, c.fourcc@) {
            (t, Ok(()))
        } else {
            (
                TrackModel { tref: t.tref.push((c.fourcc@, nonzero(words(d, 0, d.len() / 4)))), ..t },
                Ok(()),
            )
        },
    }
}

/// What the track reference box says of a track from byte `pos` on.
pub open spec fn tref_from(b: Seq<u8>, pos: int, t: TrackModel) -> Outcome<TrackModel> {
    walk(b, pos, t, |t: TrackModel, c: Child| tref_step(t, c))
}

/// Reads the track numbers of a reference, without those that are 0.
fn read_ids(d: &[u8]) -> (r: Vec<u32>)
    requires
        d@.len() % 4 == 0,
    ensures
        r@ == nonzero(words(d@, 0, d@.len() / 4)),
{
    let len: usize = d.len();
    let mut ids: Vec<u32> = Vec::new();
    let mut p: usize = 0;
    while p < len
        invariant
            len == d@.len(),
            len % 4 == 0,
            p <= len,
            p % 4 == 0,
            ids@ == nonzero(words(d@, 0, (p / 4) as nat)),
        decreases len - p,
    {
        let id: u32 = read_u32(d, p);
        proof {
            let w = words(d@, 0, (p / 4 + 1) as nat);
            assert(w.drop_last() =~= words(d@, 0, (p / 4) as nat));
            assert(w.last() == id);
            assert((p + 4) / 4 == p / 4 + 1);
        }
        if id != 0 {
            ids.push(id);
        }
        p += 4;
    }
    ids
}

/// Whether two codes are the same.
pub(crate) fn same_code(a: &[u8; 4], b: &[u8; 4]) -> (r: bool)
    ensures
        r == (a@ == b@),
{
    proof {
        if a@[0] == b@[0] && a@[1] == b@[1] && a@[2] == b@[2] && a@[3] == b@[3] {
            assert(a@ =~= b@);
        }
    }
    a[0] == b[0] && a[1] == b[1] && a[2] == b[2] && a[3] == b[3]
}

/// Whether a track has a reference of the given type.
fn find_ref(t: &Track, fourcc: &[u8; 4]) -> (r: bool)
    ensures
        r == has_ref(t@.tref, fourcc@),
{
    let mut i: usize = 0;
    while i < t.tref.len()
        invariant
            i <= t.tref@.len(),
            forall|k: int| 0 <= k < i ==> (#[trigger] views(t.tref@)[k]).0 != fourcc@,
        decreases t.tref@.len() - i,
    {
        if same_code(&t.tref[i].0, fourcc) {
            assert(views(t.tref@)[i as int].0 == fourcc@);
            return true;
        }
        i += 1;
    }
    false
}

/// Parses the track reference box.
pub fn parse_tref(body: &[u8], t: &mut Track) -> (r: Result<()>)
    ensures
        (final(t)@, r) == tref_from(body@, 0, old(t)@),
{
    let mut pos: usize = 0;
    while pos < body.len()
        invariant
            pos <= body@.len(),
            tref_from(body@, 0, old(t)@) == tref_from(body@, pos as int, t@),
        decreases body@.len() - pos,
    {
        let c = next_child(body, pos)?;
        let d = c.body()?;
        if d.len() % 4 != 0 {
            return Err(Error::invalid("MP4: tref child not a multiple of 4 bytes"));
        }
        let ids = read_ids(d);
        if !find_ref(t, &c.fourcc) {
            let row = (c.fourcc, ids);
            proof { lemma_views_push(t.tref@, row); }
            t.tref.push(row);
        }
        pos = c.next;
    }
    Ok(())
}

/// What one child of the track group box says of a track. Only version 0 is known.
pub open spec fn trgr_step(t: TrackModel, c: Child) -> Outcome<TrackModel> {
    match body_of(c) {
        Err(e) => (t, Err(e)),
        Ok(d) => if d.len() < 8 {
            (t, Err(Error::invalid("MP4: trgr child too short for FullBox + track_group_id")))
        } else if d[0] != 0 {
            (t, Ok(()))
        } else {
            (TrackModel { trgr: t.trgr.push((c.fourcc, be32(d, 4))), ..t }, Ok(()))
        },
    }
}

/// What the track group box says of a track from byte `pos` on.
pub open spec fn trgr_from(b: Seq<u8>, pos: int, t: TrackModel) -> Outcome<TrackModel> {
    walk(b, pos, t, |t: TrackModel, c: Child| trgr_step(t, c))
}

/// Parses the track group box.
pub fn parse_trgr(body: &[u8], t: &mut Track) -> (r: Result<()>)
    ensures
        (final(t)@, r) == trgr_from(body@, 0, old(t)@),
{
    let mut pos: usize = 0;
    while pos < body.len()
        invariant
            pos <= body@.len(),
            trgr_from(body@, 0, old(t)@) == trgr_from(body@, pos as int, t@),
        decreases body@.len() - pos,
    {
        let c = next_child(body, pos)?;
        let d = c.body()?;
        if d.len() < 8 {
            return Err(Error::invalid("MP4: trgr child too short for FullBox + track_group_id"));
        }
        if d[0] == 0 {
            t.trgr.push((c.fourcc, read_u32(d, 4)));
        }
        pos = c.next;
    }
    Ok(())
}

/// What a copyright box says of a track: the language packed in five bits a letter, and the notice.
pub open spec fn cprt_of(t: TrackModel, b: Seq<u8>) -> TrackModel {
    let packed = be16(b, 4);
    if b.len() < 6 || b[0] != 0 {
        t
    } else {
        TrackModel {
            copyrights: t.copyrights.push(
                CopyrightModel {
                    language: [
                        (packed / 1024 % 32 + 96) as u8,
                        (packed / 32 % 32 + 96) as u8,
                        (packed % 32 + 96) as u8,
                    ],
                    notice: decoded_text(b.subrange(6, b.len() as int)),
                },
            ),
            ..t
        }
    }
}

/// Parses a copyright box.
pub fn parse_cprt(body: &[u8], t: &mut Track)
    ensures
        final(t)@ == cprt_of(old(t)@, body@),
{
    if body.len() < 6 || body[0] != 0 {
        return;
    }
    let packed: u16 = read_u16(body, 4);
    let language: [u8; 3] = [
        (packed / 1024 % 32 + 96) as u8,
        (packed / 32 % 32 + 96) as u8,
        (packed % 32 + 96) as u8,
    ];
    let notice = decode_utf8_or_utf16(&body[6..body.len()]);
    let row = CopyrightRecord { language, notice };
    proof { lemma_views_push(t.copyrights@, row); }
    t.copyrights.push(row);
}

/// What a kind box says of a track: a scheme and, behind its terminator, a value. A box with
/// an empty scheme, or with text that is not UTF-8, says nothing.
pub open spec fn kind_of(t: TrackModel, b: Seq<u8>) -> TrackModel {
    let uri = cstr_at(b, 4);
    let end = 4 + uri.len() as int;
    let value = if end >= b.len() { Seq::empty() } else { cstr_at(b, end + 1) };
    if b.len() < 4 || !valid_utf8(uri) || !valid_utf8(value) || decode_utf8(uri).len() == 0 {
        t
    } else {
        TrackModel { kinds: t.kinds.push((decode_utf8(uri), decode_utf8(value))), ..t }
    }
}

/// Parses a kind box.
pub fn parse_kind(body: &[u8], t: &mut Track)
    ensures
        final(t)@ == kind_of(old(t)@, body@),
{
    if body.len() < 4 {
        return;
    }
    let (uri, end) = read_cstr(body, 4);
    let uri = match uri {
        Some(u) => u,
        None => return,
    };
    let value = if end >= body.len() {
        let s = String::new();
        proof {
            assert(s@ =~= decode_utf8(Seq::<u8>::empty()));
        }
        s
    } else {
        match read_cstr(body, end + 1).0 {
            Some(v) => v,
            None => return,
        }
    };
    if is_empty(&uri) {
        return;
    }
    let row = (uri, value);
    proof { lemma_views_push(t.kinds@, row); }
    t.kinds.push(row);
}

/// The codes from byte `off` on; bytes that do not fill a code are left out.
pub open spec fn codes_from(b: Seq<u8>, off: int) -> Seq<[u8; 4]> {
    Seq::new(((b.len() - off) / 4) as nat, |i: int| code_at(b, off + 4 * i))
}

/// Reads the codes from byte `off` on.
fn read_codes(b: &[u8], off: usize) -> (r: Vec<[u8; 4]>)
    requires
        off <= b@.len(),
    ensures
        r@ == codes_from(b@, off as int),
{
    let len: usize = b.len();
    let mut out: Vec<[u8; 4]> = Vec::new();
    let mut p: usize = off;
    while len - p >= 4
        invariant
            len == b@.len(),
            off <= p <= len,
            (p - off) % 4 == 0,
            out@ =~= Seq::new(((p - off) / 4) as nat, |i: int| code_at(b@, off + 4 * i)),
        decreases len - p,
    {
        out.push(read_code(b, p));
        p += 4;
    }
    out
}

/// What a track selection box says of a track.
pub open spec fn tsel_of(t: TrackModel, b: Seq<u8>) -> TrackModel {
    if b.len() < 8 || b[0] != 0 {
        t
    } else {
        TrackModel {
            tsel: Some(TselModel { switch_group: s32(be32(b, 4)), attribute_list: codes_from(b, 8) }),
            ..t
        }
    }
}

/// Parses a track selection box.
pub fn parse_tsel(body: &[u8], t: &mut Track)
    ensures
        final(t)@ == tsel_of(old(t)@, body@),
{
    if body.len() < 8 || body[0] != 0 {
        return;
    }
    t.tsel = Some(TselBox { switch_group: to_i32(read_u32(body, 4)), attribute_list: read_codes(body, 8) });
}

/// The content of a sub-track information payload.
pub open spec fn stri_of(b: Seq<u8>) -> Option<SubTrackModel> {
    if b.len() < 12 || b[0] != 0 {
        None
    } else {
        Some(
            SubTrackModel {
                switch_group: s16(be16(b, 4)),
                alternate_group: s16(be16(b, 6)),
                sub_track_id: be32(b, 8),
                attribute_list: codes_from(b, 12),
                sample_groups: Seq::empty(),
            },
        )
    }
}

/// Parses a sub-track information payload.
pub fn parse_stri(body: &[u8]) -> (r: Option<SubTrack>)
    ensures
        opt_view(r) == stri_of(body@),
{
    if body.len() < 12 || body[0] != 0 {
        return None;
    }
    let s = SubTrack {
        switch_group: to_i16(read_u16(body, 4)),
        alternate_group: to_i16(read_u16(body, 6)),
        sub_track_id: read_u32(body, 8),
        attribute_list: read_codes(body, 12),
        sample_groups: Vec::new(),
    };
    proof { assert(s@.sample_groups =~= Seq::empty()); }
    Some(s)
}

/// The content of a sub-track sample group payload.
pub open spec fn stsg_of(b: Seq<u8>) -> Option<SubTrackSampleGroupModel> {
    if b.len() < 10 || b[0] != 0 || b.len() < 10 + 4 * be16(b, 8) {
        None
    } else {
        Some(
            SubTrackSampleGroupModel {
                grouping_type: code_at(b, 4),
                group_description_indices: words(b, 10, be16(b, 8) as nat),
            },
        )
    }
}

/// Parses a sub-track sample group payload.
pub fn parse_stsg(body: &[u8]) -> (r: Option<SubTrackSampleGroup>)
    ensures
        opt_view(r) == stsg_of(body@),
{
    let len: usize = body.len();
    if len < 10 || body[0] != 0 {
        return None;
    }
    let count: u16 = read_u16(body, 8);
    if len - 10 < 4 * (count as usize) {
        return None;
    }
    Some(
        SubTrackSampleGroup {
            grouping_type: read_code(body, 4),
            group_description_indices: read_words(body, 10, count as u32),
        },
    )
}

/// What one child of a sub-track definition adds.
pub open spec fn strd_step(s: Seq<SubTrackSampleGroupModel>, c: Child) -> Seq<SubTrackSampleGroupModel> {
    if c.kind == STSG {
        match stsg_of(c.data) {
            Some(g) => s.push(g),
            None => s,
        }
    } else {
        s
    }
}

/// The sample groups of a sub-track definition from byte `pos` on, behind those in `s`.
pub open spec fn strd_from(b: Seq<u8>, pos: int, s: Seq<SubTrackSampleGroupModel>) -> Seq<SubTrackSampleGroupModel> {
    walk_lenient(b, pos, s, |s: Seq<SubTrackSampleGroupModel>, c: Child| strd_step(s, c))
}

/// Parses a sub-track definition.
pub fn parse_strd(body: &[u8]) -> (r: Vec<SubTrackSampleGroup>)
    ensures
        views(r@) == strd_from(body@, 0, Seq::empty()),
{
    let mut out: Vec<SubTrackSampleGroup> = Vec::new();
    let mut pos: usize = 0;
    proof { assert(views(out@) =~= Seq::<SubTrackSampleGroupModel>::empty()); }
    while pos < body.len()
        invariant
            pos <= body@.len(),
            strd_from(body@, 0, Seq::empty()) == strd_from(body@, pos as int, views(out@)),
        decreases body@.len() - pos,
    {
        let c = match next_child(body, pos) {
            Ok(c) => c,
            Err(_) => return out,
        };
        if !c.whole {
            return out;
        }
        if c.kind == STSG {
            if let Some(g) = parse_stsg(c.data) {
                proof { lemma_views_push(out@, g); }
                out.push(g);
            }
        }
        pos = c.next;
    }
    out
}

/// What the children of a sub-track box have said so far: its information and its sample groups.
pub type StrkState = (Option<SubTrackModel>, Seq<SubTrackSampleGroupModel>);

/// What one child of a sub-track box says; the last of a kind counts.
pub open spec fn strk_step(s: StrkState, c: Child) -> StrkState {
    if c.kind == STRI {
        (stri_of(c.data), s.1)
    } else if c.kind == STRD {
        (s.0, strd_from(c.data, 0, Seq::empty()))
    } else {
        s
    }
}

/// What the children of a sub-track box from byte `pos` on say.
pub open spec fn strk_from(b: Seq<u8>, pos: int, s: StrkState) -> StrkState {
    walk_lenient(b, pos, s, |s: StrkState, c: Child| strk_step(s, c))
}

/// What a sub-track box says of a track: nothing without its information.
pub open spec fn strk_of(t: TrackModel, b: Seq<u8>) -> TrackModel {
    match strk_from(b, 0, (None, Seq::empty())) {
        (Some(info), groups) => TrackModel {
            sub_tracks: t.sub_tracks.push(SubTrackModel { sample_groups: groups, ..info }),
            ..t
        },
        _ => t,
    }
}

/// Reads the children of a sub-track box.
fn read_strk(body: &[u8]) -> (r: (Option<SubTrack>, Vec<SubTrackSampleGroup>))
    ensures
        (opt_view(r.0), views(r.1@)) == strk_from(body@, 0, (None, Seq::empty())),
{
    let mut info: Option<SubTrack> = None;
    let mut groups: Vec<SubTrackSampleGroup> = Vec::new();
    let mut pos: usize = 0;
    proof { assert(views(groups@) =~= Seq::<SubTrackSampleGroupModel>::empty()); }
    while pos < body.len()
        invariant
            pos <= body@.len(),
            strk_from(body@, 0, (None, Seq::empty())) == strk_from(body@, pos as int, (opt_view(info), views(groups@))),
        decreases body@.len() - pos,
    {
        let c = match next_child(body, pos) {
            Ok(c) => c,
            Err(_) => return (info, groups),
        };
        if !c.whole {
            return (info, groups);
        }
        if c.kind == STRI {
            info = parse_stri(c.data);
        } else if c.kind == STRD {
            groups = parse_strd(c.data);
        }
        pos = c.next;
    }
    (info, groups)
}

/// Parses a sub-track box.
pub fn parse_strk(body: &[u8], t: &mut Track)
    ensures
        final(t)@ == strk_of(old(t)@, body@),
{
    let (info, groups) = read_strk(body);
    if let Some(i) = info {
        let row = SubTrack {
            switch_group: i.switch_group,
            alternate_group: i.alternate_group,
            sub_track_id: i.sub_track_id,
            attribute_list: i.attribute_list,
            sample_groups: groups,
        };
        proof { lemma_views_push(t.sub_tracks@, row); }
        t.sub_tracks.push(row);
    }
}

/// What one child of the user data of a track says of it.
pub open spec fn track_udta_step(t: TrackModel, c: Child) -> TrackModel {
    if c.kind == KIND {
        kind_of(t, c.data)
    } else if c.kind == TSEL {
        tsel_of(t, c.data)
    } else if c.kind == STRK {
        strk_of(t, c.data)
    } else if c.kind == CPRT {
        cprt_of(t, c.data)
    } else {
        t
    }
}

/// What the user data of a track from byte `pos` on says of it.
pub open spec fn track_udta_from(b: Seq<u8>, pos: int, t: TrackModel) -> TrackModel {
    walk_lenient(b, pos, t, |t: TrackModel, c: Child| track_udta_step(t, c))
}

/// Parses the user data of a track.
pub fn parse_track_udta(body: &[u8], t: &mut Track)
    ensures
        final(t)@ == track_udta_from(body@, 0, old(t)@),
{
    let mut pos: usize = 0;
    while pos < body.len()
        invariant
            pos <= body@.len(),
            track_udta_from(body@, 0, old(t)@) == track_udta_from(body@, pos as int, t@),
        decreases body@.len() - pos,
    {
        let c = match next_child(body, pos) {
            Ok(c) => c,
            Err(_) => return,
        };
        if !c.whole {
            return;
        }
        if c.kind == KIND {
            parse_kind(c.data, t);
        } else if c.kind == TSEL {
            parse_tsel(c.data, t);
        } else if c.kind == STRK {
            parse_strk(c.data, t);
        } else if c.kind == CPRT {
            parse_cprt(c.data, t);
        }
        pos = c.next;
    }
}

/// No defaults for fragments.
pub open spec fn no_defaults() -> TrexDefaults {
    TrexDefaults {
        default_sample_description_index: 0,
        default_sample_duration: 0,
        default_sample_size: 0,
        default_sample_flags: 0,
    }
}

impl TrackModel {
    /// A track of which nothing is known.
    pub open spec fn blank() -> TrackModel {
        TrackModel {
            track_id: 0,
            media_type: MediaType::Unknown,
            codec_id_fourcc: [0, 0, 0, 0],
            timescale: 0,
            duration: None,
            channels: None,
            sample_rate: None,
            sample_size_bits: None,
            width: None,
            height: None,
            extradata: Seq::empty(),
            esds_oti: None,
            stts: Seq::empty(),
            stsc: Seq::empty(),
            stsz: Seq::empty(),
            chunk_offsets: Seq::empty(),
            stss: Seq::empty(),
            ctts: Seq::empty(),
            elst: Seq::empty(),
            trex: no_defaults(),
            protection_scheme: None,
            tenc: None,
            tref: Seq::empty(),
            trgr: Seq::empty(),
            elng: None,
            kinds: Seq::empty(),
            copyrights: Seq::empty(),
            tsel: None,
            sub_tracks: Seq::empty(),
            cslg: None,
            vmhd: None,
            stsh: Seq::empty(),
            sbgp: Seq::empty(),
            sgpd: Seq::empty(),
            csgp: Seq::empty(),
            sdtp: Seq::empty(),
            stdp: Seq::empty(),
            padb: Seq::empty(),
            subs: Seq::empty(),
            saiz: Seq::empty(),
            saio: Seq::empty(),
            stsd_entries: Seq::empty(),
        }
    }
}

impl Track {
    /// A track of which nothing is known.
    pub fn blank() -> (t: Track)
        ensures
            t@ == TrackModel::blank(),
    {
        let t = Track {
            track_id: 0,
            media_type: MediaType::Unknown,
            codec_id_fourcc: [0, 0, 0, 0],
            timescale: 0,
            duration: None,
            channels: None,
            sample_rate: None,
            sample_size_bits: None,
            width: None,
            height: None,
            extradata: Vec::new(),
            esds_oti: None,
            stts: Vec::new(),
            stsc: Vec::new(),
            stsz: Vec::new(),
            chunk_offsets: Vec::new(),
            stss: Vec::new(),
            ctts: Vec::new(),
            elst: Vec::new(),
            trex: TrexDefaults {
                default_sample_description_index: 0,
                default_sample_duration: 0,
                default_sample_size: 0,
                default_sample_flags: 0,
            },
            protection_scheme: None,
            tenc: None,
            tref: Vec::new(),
            trgr: Vec::new(),
            elng: None,
            kinds: Vec::new(),
            copyrights: Vec::new(),
            tsel: None,
            sub_tracks: Vec::new(),
            cslg: None,
            vmhd: None,
            stsh: Vec::new(),
            sbgp: Vec::new(),
            sgpd: Vec::new(),
            csgp: Vec::new(),
            sdtp: Vec::new(),
            stdp: Vec::new(),
            padb: Vec::new(),
            subs: Vec::new(),
            saiz: Vec::new(),
            saio: Vec::new(),
            stsd_entries: Vec::new(),
        };
        proof {
            assert(t@.extradata =~= Seq::empty());
            assert(t@.stts =~= Seq::empty());
            assert(t@.stsc =~= Seq::empty());
            assert(t@.stsz =~= Seq::empty());
            assert(t@.chunk_offsets =~= Seq::empty());
            assert(t@.stss =~= Seq::empty());
            assert(t@.ctts =~= Seq::empty());
            assert(t@.elst =~= Seq::empty());
            assert(t@.tref =~= Seq::empty());
            assert(t@.trgr =~= Seq::empty());
            assert(t@.kinds =~= Seq::empty());
            assert(t@.copyrights =~= Seq::empty());
            assert(t@.sub_tracks =~= Seq::empty());
            assert(t@.stsh =~= Seq::empty());
            assert(t@.sbgp =~= Seq::empty());
            assert(t@.sgpd =~= Seq::empty());
            assert(t@.csgp =~= Seq::empty());
            assert(t@.sdtp =~= Seq::empty());
            assert(t@.stdp =~= Seq::empty());
            assert(t@.padb =~= Seq::empty());
            assert(t@.subs =~= Seq::empty());
            assert(t@.saiz =~= Seq::empty());
            assert(t@.saio =~= Seq::empty());
            assert(t@.stsd_entries =~= Seq::empty());
        }
        t
    }
}

/// What a child of the track box says of a track, and whether there was a media box.
pub type TrakState = (TrackModel, bool);

/// What one child of the track box says.
pub open spec fn trak_step(s: TrakState, c: Child) -> Outcome<TrakState> {
    let (t, has_media) = s;
    if c.kind != TKHD && c.kind != MDIA && c.kind != EDTS && c.kind != TREF && c.kind != TRGR && c.kind != UDTA {
        (s, Ok(()))
    } else {
        match body_of(c) {
            Err(e) => (s, Err(e)),
            Ok(d) => if c.kind == UDTA {
                ((track_udta_from(d, 0, t), has_media), Ok(()))
            } else {
                let (t2, r) = if c.kind == TKHD {
                    tkhd_of(t, d)
                } else if c.kind == MDIA {
                    mdia_from(d, 0, t)
                } else if c.kind == EDTS {
                    edts_from(d, 0, t)
                } else if c.kind == TREF {
                    tref_from(d, 0, t)
                } else {
                    trgr_from(d, 0, t)
                };
                ((t2, has_media || (c.kind == MDIA && r is Ok)), r)
            },
        }
    }
}

/// What the track box from byte `pos` on says.
pub open spec fn trak_from(b: Seq<u8>, pos: int, s: TrakState) -> Outcome<TrakState> {
    walk(b, pos, s, |s: TrakState, c: Child| trak_step(s, c))
}

/// The track that a track box describes; one without a media box describes none.
pub open spec fn trak_of(b: Seq<u8>) -> Result<Option<TrackModel>> {
    match trak_from(b, 0, (TrackModel::blank(), false)) {
        (_, Err(e)) => Err(e),
        ((t, has_media), Ok(())) => Ok(if has_media { Some(t) } else { None }),
    }
}

proof fn lemma_media_seen(b: Seq<u8>, pos: int, s: TrakState)
    ensures
        ({
            let (t, r) = trak_from(b, pos, s);
            r is Ok ==> (t.1 <==> (s.1 || has_child(b, pos, MDIA)))
        }),
    decreases b.len() - pos,
{
    if pos < b.len() {
        if let Ok(h) = header_at(b, pos) {
            let (s2, r) = trak_step(s, child_at(b, pos, h));
            if r is Ok && next_pos(b, pos, h) > pos {
                lemma_media_seen(b, next_pos(b, pos, h), s2);
            }
        }
    }
}

/// A well-formed track box describes a track exactly where it has a media box.
pub proof fn law_media_makes_track(b: Seq<u8>)
    requires
        trak_of(b) is Ok,
    ensures
        trak_of(b)->Ok_0 is Some <==> has_child(b, 0, MDIA),
{
    lemma_media_seen(b, 0, (TrackModel::blank(), false));
}

/// Parses a track box.
pub fn parse_trak(body: &[u8]) -> (r: Result<Option<Track>>)
    ensures
        seen_opt(r) == trak_of(body@),
{
    let mut t = Track::blank();
    let mut has_media = false;
    let mut pos: usize = 0;
    while pos < body.len()
        invariant
            pos <= body@.len(),
            trak_from(body@, 0, (TrackModel::blank(), false)) == trak_from(body@, pos as int, (t@, has_media)),
        decreases body@.len() - pos,
    {
        let c = next_child(body, pos)?;
        if c.kind == TKHD {
            let d = c.body()?;
            parse_tkhd(d, &mut t)?;
        } else if c.kind == MDIA {
            let d = c.body()?;
            parse_mdia(d, &mut t)?;
            has_media = true;
        } else if c.kind == EDTS {
            let d = c.body()?;
            parse_edts(d, &mut t)?;
        } else if c.kind == TREF {
            let d = c.body()?;
            parse_tref(d, &mut t)?;
        } else if c.kind == TRGR {
            let d = c.body()?;
            parse_trgr(d, &mut t)?;
        } else if c.kind == UDTA {
            let d = c.body()?;
            parse_track_udta(d, &mut t);
        }
        pos = c.next;
    }
    if has_media {
        Ok(Some(t))
    } else {
        Ok(None)
    }
}

/// Whether no two references of a track have the same type.
pub open spec fn refs_distinct(tref: Seq<(Seq<u8>, Seq<u32>)>) -> bool {
    forall|i: int, j: int| 0 <= i < j < tref.len() ==> (#[trigger] tref[i]).0 != (#[trigger] tref[j]).0
}

/// A track reference box brings in no second reference of a type, and none to the track number 0.
pub proof fn law_tref_distinct(b: Seq<u8>, pos: int, t: TrackModel)
    requires
        refs_distinct(t.tref),
        forall|i: int| 0 <= i < t.tref.len() ==> !(#[trigger] t.tref[i]).1.contains(0),
    ensures
        refs_distinct(tref_from(b, pos, t).0.tref),
        forall|i: int|
            0 <= i < tref_from(b, pos, t).0.tref.len() ==> !(#[trigger] tref_from(b, pos, t).0.tref[i]).1.contains(0),
{
    let inv = |t: TrackModel|
        refs_distinct(t.tref) && forall|i: int| 0 <= i < t.tref.len() ==> !(#[trigger] t.tref[i]).1.contains(0);
    let step = |t: TrackModel, c: Child| tref_step(t, c);
    assert forall|t: TrackModel, c: Child| inv(t) implies inv(#[trigger] step(t, c).0) by {
        if let Ok(d) = body_of(c) {
            lemma_nonzero(words(d, 0, d.len() / 4));
            if !has_ref(t.tref, c.fourcc@) && d.len() % 4 == 0 {
                let next = t.tref.push((c.fourcc@, nonzero(words(d, 0, d.len() / 4))));
                assert forall|i: int, j: int| 0 <= i < j < next.len() implies (#[trigger] next[i]).0 != (
                #[trigger] next[j]).0 by {
                    assert(next[i] == t.tref[i]);
                    if j < t.tref.len() {
                        assert(t.tref[i].0 != t.tref[j].0);
                    }
                }
                assert forall|i: int| 0 <= i < next.len() implies !(#[trigger] next[i]).1.contains(0) by {
                    if i < t.tref.len() {
                        assert(!t.tref[i].1.contains(0));
                    }
                }
            }
        }
    }
    lemma_walk_keeps(b, pos, t, step, inv);
    assert(tref_from(b, pos, t) == walk(b, pos, t, step));
}

proof fn lemma_nonzero(s: Seq<u32>)
    ensures
        !nonzero(s).contains(0),
    decreases s.len(),
{
    if s.len() > 0 {
        lemma_nonzero(s.drop_last());
        let r = nonzero(s);
        if r.contains(0) {
            let k = r.index_of(0);
            if s.last() != 0 && k < r.len() - 1 {
                assert(nonzero(s.drop_last())[k] == 0);
            } else if s.last() == 0 {
                assert(nonzero(s.drop_last())[k] == 0);
            }
        }
    }
}

}
