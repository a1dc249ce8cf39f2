//! The sample description table: sample entries and what protects them.
use vstd::prelude::*;
use crate::boxes::{body_of, child_at, header_at, next_child, next_pos, opt_view, walk, Child, Outcome};
use crate::bytes::{be16, be32, code_at, copy_bytes, push_bytes, read_code, read_u16, read_u32};
use crate::cenc::{parse_tenc, tenc_of, TencBox, TencModel};
use crate::error::{seen, Error, Result};
use crate::esds::{esds_of, parse_esds};
use crate::kinds::{
    AV1C, AVCC, C608, C708, DAC3, DEC3, DFLA, DOPS, ENCA, ENCS, ENCT, ENCV, ESDS, FRMA, HVCC, SBTT,
    SCHI, SCHM, SINF, STPP, STXT, TENC, TEXT, TX3G, VPCC, WVTT,
};
use crate::track::{MediaType, StsdEntry, Track, TrackModel};

verus! {

/// The payload of the first child of the given kind from byte `pos` on. The children
/// before it must be there in full.
pub open spec fn first_child(b: Seq<u8>, pos: int, kind: u32) -> Result<Option<Seq<u8>>>
    decreases b.len() - pos,
{
    if pos >= b.len() {
        Ok(None)
    } else {
        match header_at(b, pos) {
            Err(e) => Err(e),
            Ok(h) => match body_of(child_at(b, pos, h)) {
                Err(e) => Err(e),
                Ok(d) => if h.kind == kind {
                    Ok(Some(d))
                } else if next_pos(b, pos, h) <= pos {
                    Ok(None)
                } else {
                    first_child(b, next_pos(b, pos, h), kind)
                },
            },
        }
    }
}

/// Finds the first child of the given kind.
pub fn find_child<'a>(b: &'a [u8], kind: u32) -> (r: Result<Option<&'a [u8]>>)
    ensures
        match r {
            Ok(Some(d)) => first_child(b@, 0, kind) == Ok::<Option<Seq<u8>>, Error>(Some(d@)),
            Ok(None) => first_child(b@, 0, kind) == Ok::<Option<Seq<u8>>, Error>(None),
            Err(e) => first_child(b@, 0, kind) == Err::<Option<Seq<u8>>, Error>(e),
        },
{
    let mut pos: usize = 0;
    while pos < b.len()
        invariant
            pos <= b@.len(),
            first_child(b@, 0, kind) == first_child(b@, pos as int, kind),
        decreases b@.len() - pos,
    {
        let c = next_child(b, pos)?;
        let d = c.body()?;
        if c.kind == kind {
            return Ok(Some(d));
        }
        pos = c.next;
    }
    Ok(None)
}

/// What a protection scheme box says of a protected sample entry.
#[derive(Clone, Debug, PartialEq, Eq)]
pub struct SinfUnwrap {
    /// The code of the entry before it was protected.
    pub original_format: Option<[u8; 4]>,
    pub scheme_type: Option<[u8; 4]>,
    pub tenc: Option<TencBox>,
}

/// The model of `SinfUnwrap`.
pub ghost struct SinfModel {
    pub original_format: Option<[u8; 4]>,
    pub scheme_type: Option<[u8; 4]>,
    pub tenc: Option<TencModel>,
}

impl View for SinfUnwrap {
    type V = SinfModel;

    open spec fn view(&self) -> SinfModel {
        SinfModel { original_format: self.original_format, scheme_type: self.scheme_type, tenc: opt_view(self.tenc) }
    }
}

impl SinfModel {
    /// Nothing known.
    pub open spec fn nothing() -> SinfModel {
        SinfModel { original_format: None, scheme_type: None, tenc: None }
    }
}

impl SinfUnwrap {
    /// Nothing known.
    pub fn empty() -> (s: SinfUnwrap)
        ensures
            s@ == SinfModel::nothing(),
    {
        SinfUnwrap { original_format: None, scheme_type: None, tenc: None }
    }
}

/// The track encryption box in a scheme information box, where both are well formed.
pub open spec fn schi_tenc(b: Seq<u8>) -> Option<TencModel> {
    match first_child(b, 0, TENC) {
        Ok(Some(d)) => match tenc_of(d) {
            Ok(t) => Some(t),
            Err(_) => None,
        },
        _ => None,
    }
}

/// Looks for the track encryption box in a scheme information box.
pub fn walk_schi_for_tenc(body: &[u8]) -> (r: Option<TencBox>)
    ensures
        opt_view(r) == schi_tenc(body@),
{
    match find_child(body, TENC) {
        Ok(Some(d)) => match parse_tenc(d) {
            Ok(t) => Some(t),
            Err(_) => None,
        },
        _ => None,
    }
}

/// What one child of a protection scheme box adds.
pub open spec fn sinf_step(s: SinfModel, c: Child) -> Outcome<SinfModel> {
    match body_of(c) {
        Err(e) => (s, Err(e)),
        Ok(d) => if c.kind == FRMA && d.len() >= 4 {
            (SinfModel { original_format: Some(code_at(d, 0)), ..s }, Ok(()))
        } else if c.kind == SCHM && d.len() >= 8 {
            (SinfModel { scheme_type: Some(code_at(d, 4)), ..s }, Ok(()))
        } else if c.kind == SCHI {
            (SinfModel { tenc: schi_tenc(d), ..s }, Ok(()))
        } else {
            (s, Ok(()))
        },
    }
}

/// The children of a protection scheme box from byte `pos` on.
pub open spec fn sinf_from(b: Seq<u8>, pos: int, s: SinfModel) -> Outcome<SinfModel> {
    walk(b, pos, s, |s: SinfModel, c: Child| sinf_step(s, c))
}

/// The content of a protection scheme box.
pub open spec fn sinf_of(b: Seq<u8>) -> Result<SinfModel> {
    match sinf_from(b, 0, SinfModel::nothing()) {
        (s, Ok(())) => Ok(s),
        (_, Err(e)) => Err(e),
    }
}

/// Parses a protection scheme box.
pub fn parse_sinf_body(body: &[u8]) -> (r: Result<SinfUnwrap>)
    ensures
        seen(r) == sinf_of(body@),
{
    let mut out = SinfUnwrap::empty();
    let mut pos: usize = 0;
    while pos < body.len()
        invariant
            pos <= body@.len(),
            sinf_from(body@, 0, SinfModel::nothing()) == sinf_from(body@, pos as int, out@),
        decreases body@.len() - pos,
    {
        let c = next_child(body, pos)?;
        let d = c.body()?;
        if c.kind == FRMA && d.len() >= 4 {
            out.original_format = Some(read_code(d, 0));
        } else if c.kind == SCHM && d.len() >= 8 {
            out.scheme_type = Some(read_code(d, 4));
        } else if c.kind == SCHI {
            out.tenc = walk_schi_for_tenc(d);
        }
        pos = c.next;
    }
    Ok(out)
}

/// How many bytes of a sample entry come before its child boxes, where it has any.
pub open spec fn entry_preamble(m: MediaType) -> Option<int> {
    match m {
        MediaType::Audio => Some(28),
        MediaType::Video => Some(78),
        _ => None,
    }
}

/// What protects a sample entry.
pub open spec fn entry_protection(entry: Seq<u8>, m: MediaType) -> Result<SinfModel> {
    match entry_preamble(m) {
        None => Ok(SinfModel::nothing()),
        Some(p) => if entry.len() <= p {
            Ok(SinfModel::nothing())
        } else {
            match first_child(entry.subrange(p, entry.len() as int), 0, SINF) {
                Err(e) => Err(e),
                Ok(None) => Ok(SinfModel::nothing()),
                Ok(Some(d)) => sinf_of(d),
            }
        },
    }
}

/// Finds what protects a sample entry.
pub fn parse_sinf_for_original_format(entry: &[u8], media_type: MediaType) -> (r: Result<SinfUnwrap>)
    ensures
        seen(r) == entry_protection(entry@, media_type),
{
    let preamble: usize = match media_type {
        MediaType::Audio => 28,
        MediaType::Video => 78,
        _ => return Ok(SinfUnwrap::empty()),
    };
    if entry.len() <= preamble {
        return Ok(SinfUnwrap::empty());
    }
    match find_child(&entry[preamble..entry.len()], SINF)? {
        Some(d) => parse_sinf_body(d),
        None => Ok(SinfUnwrap::empty()),
    }
}

/// What an elementary stream descriptor in a sample entry adds to a track.
pub open spec fn with_esds(t: TrackModel, d: Seq<u8>) -> TrackModel {
    match esds_of(d.subrange(4, d.len() as int)) {
        None => t,
        Some(m) => TrackModel {
            extradata: if m.dsi.len() == 0 { t.extradata } else { m.dsi },
            esds_oti: m.oti,
            ..t
        },
    }
}

/// Takes over an elementary stream descriptor of a sample entry.
fn apply_esds(d: &[u8], t: &mut Track)
    requires
        d@.len() >= 4,
    ensures
        final(t)@ == with_esds(old(t)@, d@),
{
    if let Some(parsed) = parse_esds(&d[4..d.len()]) {
        if parsed.dsi.len() != 0 {
            t.extradata = parsed.dsi;
        }
        t.esds_oti = parsed.oti;
    }
}

/// The letters with which an Opus header starts.
pub open spec fn opus_head() -> Seq<u8> {
    seq![0x4F, 0x70, 0x75, 0x73, 0x48, 0x65, 0x61, 0x64]
}

/// What one child of an audio sample entry adds to a track.
pub open spec fn audio_step(t: TrackModel, c: Child) -> Outcome<TrackModel> {
    match body_of(c) {
        Err(e) => (t, Err(e)),
        Ok(d) => if c.kind == DFLA && d.len() > 4 {
            (TrackModel { extradata: d.subrange(4, d.len() as int), ..t }, Ok(()))
        } else if c.kind == DOPS && d.len() >= 11 {
            (TrackModel { extradata: opus_head() + d, ..t }, Ok(()))
        } else if c.kind == ESDS && d.len() >= 4 {
            (with_esds(t, d), Ok(()))
        } else if c.kind == DAC3 || c.kind == DEC3 {
            (TrackModel { extradata: d, ..t }, Ok(()))
        } else {
            (t, Ok(()))
        },
    }
}

/// The children of an audio sample entry from byte `pos` on.
pub open spec fn audio_from(b: Seq<u8>, pos: int, t: TrackModel) -> Outcome<TrackModel> {
    walk(b, pos, t, |t: TrackModel, c: Child| audio_step(t, c))
}

/// What an audio sample entry says of a track.
pub open spec fn audio_entry(t: TrackModel, entry: Seq<u8>) -> Outcome<TrackModel> {
    if entry.len() < 28 {
        (t, Ok(()))
    } else {
        audio_from(
            entry.subrange(28, entry.len() as int),
            0,
            TrackModel {
                channels: Some(be16(entry, 16)),
                sample_size_bits: Some(be16(entry, 18)),
                sample_rate: Some((be32(entry, 24) / 0x1_0000) as u32),
                ..t
            },
        )
    }
}

/// Parses an audio sample entry.
pub fn parse_audio_sample_entry(entry: &[u8], t: &mut Track) -> (r: Result<()>)
    ensures
        (final(t)@, r) == audio_entry(old(t)@, entry@),
{
    if entry.len() < 28 {
        return Ok(());
    }
    t.channels = Some(read_u16(entry, 16));
    t.sample_size_bits = Some(read_u16(entry, 18));
    t.sample_rate = Some(read_u32(entry, 24) / 0x1_0000);
    let rest = &entry[28..entry.len()];
    let ghost t0 = t@;
    let mut pos: usize = 0;
    while pos < rest.len()
        invariant
            pos <= rest@.len(),
            audio_entry(old(t)@, entry@) == audio_from(rest@, 0, t0),
            audio_from(rest@, 0, t0) == audio_from(rest@, pos as int, t@),
        decreases rest@.len() - pos,
    {
        let c = next_child(rest, pos)?;
        let d = c.body()?;
        if c.kind == DFLA && d.len() > 4 {
            t.extradata = copy_bytes(&d[4..d.len()]);
        } else if c.kind == DOPS && d.len() >= 11 {
            let mut head: Vec<u8> = vec![0x4F, 0x70, 0x75, 0x73, 0x48, 0x65, 0x61, 0x64];
            proof { assert(head@ =~= opus_head()); }
            push_bytes(&mut head, d);
            t.extradata = head;
        } else if c.kind == ESDS && d.len() >= 4 {
            apply_esds(d, t);
        } else if c.kind == DAC3 || c.kind == DEC3 {
            t.extradata = copy_bytes(d);
        }
        pos = c.next;
    }
    Ok(())
}

/// What one child of a video sample entry adds to a track.
pub open spec fn video_step(t: TrackModel, c: Child) -> Outcome<TrackModel> {
    match body_of(c) {
        Err(e) => (t, Err(e)),
        Ok(d) => if c.kind == AVCC || c.kind == HVCC || c.kind == AV1C || c.kind == VPCC {
            (TrackModel { extradata: d, ..t }, Ok(()))
        } else if c.kind == ESDS && d.len() >= 4 {
            (with_esds(t, d), Ok(()))
        } else {
            (t, Ok(()))
        },
    }
}

/// The children of a video sample entry from byte `pos` on.
pub open spec fn video_from(b: Seq<u8>, pos: int, t: TrackModel) -> Outcome<TrackModel> {
    walk(b, pos, t, |t: TrackModel, c: Child| video_step(t, c))
}

/// What a video sample entry says of a track.
pub open spec fn video_entry(t: TrackModel, entry: Seq<u8>) -> Outcome<TrackModel> {
    let sized = TrackModel { width: Some(be16(entry, 24) as u32), height: Some(be16(entry, 26) as u32), ..t };
    if entry.len() < 28 {
        (t, Ok(()))
    } else if entry.len() <= 78 {
        (sized, Ok(()))
    } else {
        video_from(entry.subrange(78, entry.len() as int), 0, sized)
    }
}

/// Parses a video sample entry.
pub fn parse_video_sample_entry(entry: &[u8], t: &mut Track) -> (r: Result<()>)
    ensures
        (final(t)@, r) == video_entry(old(t)@, entry@),
{
    if entry.len() < 28 {
        return Ok(());
    }
    t.width = Some(read_u16(entry, 24) as u32);
    t.height = Some(read_u16(entry, 26) as u32);
    if entry.len() <= 78 {
        return Ok(());
    }
    let rest = &entry[78..entry.len()];
    let ghost t0 = t@;
    let mut pos: usize = 0;
    while pos < rest.len()
        invariant
            pos <= rest@.len(),
            video_entry(old(t)@, entry@) == video_from(rest@, 0, t0),
            video_from(rest@, 0, t0) == video_from(rest@, pos as int, t@),
        decreases rest@.len() - pos,
    {
        let c = next_child(rest, pos)?;
        let d = c.body()?;
        if c.kind == AVCC || c.kind == HVCC || c.kind == AV1C || c.kind == VPCC {
            t.extradata = copy_bytes(d);
        } else if c.kind == ESDS && d.len() >= 4 {
            apply_esds(d, t);
        }
        pos = c.next;
    }
    Ok(())
}

/// Whether the code is that of a subtitle format whose sample entry configures the decoder.
pub open spec fn is_subtitle_format(code: u32) -> bool {
    code == STPP || code == SBTT || code == STXT || code == WVTT || code == TX3G || code == TEXT || code == C608 || code
        == C708
}

/// What a subtitle sample entry says of a track.
pub open spec fn subtitle_entry(t: TrackModel, entry: Seq<u8>) -> TrackModel {
    if entry.len() >= 8 && is_subtitle_format(be32(t.codec_id_fourcc@, 0)) {
        TrackModel { extradata: entry.subrange(8, entry.len() as int), ..t }
    } else {
        t
    }
}

/// Parses a subtitle sample entry.
pub fn parse_subtitle_sample_entry(entry: &[u8], t: &mut Track) -> (r: Result<()>)
    ensures
        (final(t)@, r) == (subtitle_entry(old(t)@, entry@), Ok::<(), Error>(())),
{
    if entry.len() < 8 {
        return Ok(());
    }
    let code: u32 = read_u32(t.codec_id_fourcc.as_slice(), 0);
    if code == STPP || code == SBTT || code == STXT || code == WVTT || code == TX3G || code == TEXT || code == C608
        || code == C708 {
        t.extradata = copy_bytes(&entry[8..entry.len()]);
    }
    Ok(())
}

/// What the sample entry says of a track, by the track's kind of media.
pub open spec fn sample_entry(t: TrackModel, entry: Seq<u8>) -> Outcome<TrackModel> {
    if entry.len() < 8 {
        (t, Ok(()))
    } else {
        match t.media_type {
            MediaType::Audio => audio_entry(t, entry),
            MediaType::Video => video_entry(t, entry),
            MediaType::Subtitle => (subtitle_entry(t, entry), Ok(())),
            _ => (t, Ok(())),
        }
    }
}

/// Parses a sample entry.
pub fn parse_sample_entry(entry: &[u8], t: &mut Track) -> (r: Result<()>)
    ensures
        (final(t)@, r) == sample_entry(old(t)@, entry@),
{
    if entry.len() < 8 {
        return Ok(());
    }
    match t.media_type {
        MediaType::Audio => parse_audio_sample_entry(entry, t),
        MediaType::Video => parse_video_sample_entry(entry, t),
        MediaType::Subtitle => parse_subtitle_sample_entry(entry, t),
        _ => Ok(()),
    }
}

/// A sample entry: its code, the code as a number, and its payload.
pub type Entry = ([u8; 4], u32, Seq<u8>);

/// The row of the sample description table for an entry.
pub open spec fn stsd_row(fourcc: [u8; 4], d: Seq<u8>) -> StsdEntry {
    StsdEntry { format: fourcc, data_reference_index: if d.len() >= 8 { be16(d, 6) } else { 0 } }
}

/// The rows of up to `n` sample entries from byte `pos` on, which are put behind those of
/// `t`; and the first entry, which is `first` where that is known already.
pub open spec fn stsd_rows(b: Seq<u8>, pos: int, n: nat, t: TrackModel, first: Option<Entry>) -> (
    TrackModel,
    Result<Option<Entry>>,
)
    decreases n,
{
    if n == 0 || pos >= b.len() {
        (t, Ok(first))
    } else {
        match header_at(b, pos) {
            Err(e) => (t, Err(e)),
            Ok(h) => match body_of(child_at(b, pos, h)) {
                Err(e) => (t, Err(e)),
                Ok(d) => stsd_rows(
                    b,
                    next_pos(b, pos, h),
                    (n - 1) as nat,
                    TrackModel { stsd_entries: t.stsd_entries.push(stsd_row(h.fourcc, d)), ..t },
                    if first is Some { first } else { Some((h.fourcc, h.kind, d)) },
                ),
            },
        }
    }
}

/// Whether the code is that of a protected sample entry.
pub open spec fn is_protected_entry(kind: u32) -> bool {
    kind == ENCV || kind == ENCA || kind == ENCT || kind == ENCS
}

/// What the first sample entry says of a track.
pub open spec fn first_entry(t: TrackModel, entry: Entry) -> Outcome<TrackModel> {
    let coded = TrackModel { codec_id_fourcc: entry.0, ..t };
    if is_protected_entry(entry.1) {
        match entry_protection(entry.2, t.media_type) {
            Err(e) => (coded, Err(e)),
            Ok(s) => sample_entry(
                TrackModel {
                    codec_id_fourcc: match s.original_format {
                        Some(code) => code,
                        None => entry.0,
                    },
                    protection_scheme: s.scheme_type,
                    tenc: s.tenc,
                    ..t
                },
                entry.2,
            ),
        }
    } else {
        sample_entry(coded, entry.2)
    }
}

/// What the sample description table says of a track.
pub open spec fn stsd_of(t: TrackModel, b: Seq<u8>) -> Outcome<TrackModel> {
    if b.len() < 8 {
        (t, Err(Error::invalid("MP4: stsd too short")))
    } else if be32(b, 4) == 0 {
        (t, Ok(()))
    } else {
        match stsd_rows(b.subrange(8, b.len() as int), 0, be32(b, 4) as nat, t, None) {
            (t2, Err(e)) => (t2, Err(e)),
            (t2, Ok(None)) => (t2, Err(Error::invalid("MP4: stsd first entry missing"))),
            (t2, Ok(Some(entry))) => first_entry(t2, entry),
        }
    }
}

/// Takes over the first sample entry.
fn apply_first_entry(fourcc: [u8; 4], kind: u32, entry: &[u8], t: &mut Track) -> (r: Result<()>)
    ensures
        (final(t)@, r) == first_entry(old(t)@, (fourcc, kind, entry@)),
{
    t.codec_id_fourcc = fourcc;
    if kind == ENCV || kind == ENCA || kind == ENCT || kind == ENCS {
        let unwrap = parse_sinf_for_original_format(entry, t.media_type)?;
        if let Some(code) = unwrap.original_format {
            t.codec_id_fourcc = code;
        }
        t.protection_scheme = unwrap.scheme_type;
        t.tenc = unwrap.tenc;
    }
    parse_sample_entry(entry, t)
}

/// Parses the sample description table. Its first entry describes the track; of the
/// others only the rows are kept.
pub fn parse_stsd(body: &[u8], t: &mut Track) -> (r: Result<()>)
    ensures
        (final(t)@, r) == stsd_of(old(t)@, body@),
{
    if body.len() < 8 {
        return Err(Error::invalid("MP4: stsd too short"));
    }
    let count: u32 = read_u32(body, 4);
    if count == 0 {
        return Ok(());
    }
    let rest = &body[8..body.len()];
    let mut first: Option<([u8; 4], u32, &[u8])> = None;
    let mut pos: usize = 0;
    let mut i: u32 = 0;
    let ghost all = stsd_rows(rest@, 0, count as nat, t@, None);
    while i < count && pos < rest.len()
        invariant
            i <= count,
            pos <= rest@.len(),
            stsd_of(old(t)@, body@) == (match all {
                (t2, Err(e)) => (t2, Err::<(), Error>(e)),
                (t2, Ok(None)) => (t2, Err::<(), Error>(Error::invalid("MP4: stsd first entry missing"))),
                (t2, Ok(Some(entry))) => first_entry(t2, entry),
            }),
            all == stsd_rows(
                rest@,
                pos as int,
                (count - i) as nat,
                t@,
                match first {
                    Some((fourcc, kind, d)) => Some((fourcc, kind, d@)),
                    None => None,
                },
            ),
        decreases count - i,
    {
        let c = next_child(rest, pos)?;
        let d = c.body()?;
        let data_reference_index: u16 = if d.len() >= 8 { read_u16(d, 6) } else { 0 };
        t.stsd_entries.push(StsdEntry { format: c.fourcc, data_reference_index });
        if first.is_none() {
            first = Some((c.fourcc, c.kind, d));
        }
        pos = c.next;
        i += 1;
    }
    match first {
        Some((fourcc, kind, d)) => apply_first_entry(fourcc, kind, d, t),
        None => Err(Error::invalid("MP4: stsd first entry missing")),
    }
}

}
