//! Movie fragments: the samples that they add to the tracks of a movie.
use vstd::prelude::*;
use crate::auxinfo::{parse_saio, parse_saiz, saio_of, saiz_of};
use crate::boxes::{
    body_of, child_at, has_child, header_at, lemma_views_push, lemma_walk_keeps, next_child, next_pos, opt_view,
    views, walk, walk_lenient, Child, Outcome,
};
use crate::bytes::{be24, be32, be64, copy_bytes, read_u24, read_u32, read_u64, s32, s64, to_i32, to_i64};
use crate::cenc::{parse_pssh, parse_senc, pssh_of, senc_of, PsshBox, PsshModel, SencBox, SencModel};
use crate::error::{seen, Detail, Error, Result};
use crate::flags::SAMPLE_IS_NON_SYNC;
use crate::kinds::{MFHD, PSSH, SAIO, SAIZ, SENC, TFDT, TFHD, TRAF, TRUN};
use crate::movie::{find_track, lemma_track_index, track_index};
use crate::numbers::{
    clamp64, clamp_u64, clamped_add, clamped_add_u64, clamped_sub, length32, low32, wrap_u64,
};
use crate::samples::SampleRef;
use crate::track::{SaioModel, SaizModel, Track, TrackModel};
use crate::trak::{elst_leading_media_time, leading_media_time};

verus! {

/// A movie fragment as it stands in the file.
pub struct MoofRecord {
    /// Where the box starts.
    pub moof_start: u64,
    /// Its payload.
    pub body: Vec<u8>,
}

/// The model of `MoofRecord`.
pub ghost struct MoofModel {
    pub moof_start: u64,
    pub body: Seq<u8>,
}

impl View for MoofRecord {
    type V = MoofModel;

    open spec fn view(&self) -> MoofModel {
        MoofModel { moof_start: self.moof_start, body: self.body@ }
    }
}

/// The encryption information of a track fragment.
#[derive(Clone, Debug)]
pub struct SencRecord {
    pub track_idx: u32,
    pub moof_sequence: u32,
    pub senc: SencBox,
}

/// The model of `SencRecord`.
pub ghost struct SencRecordModel {
    pub track_idx: u32,
    pub moof_sequence: u32,
    pub senc: SencModel,
}

impl View for SencRecord {
    type V = SencRecordModel;

    open spec fn view(&self) -> SencRecordModel {
        SencRecordModel { track_idx: self.track_idx, moof_sequence: self.moof_sequence, senc: self.senc@ }
    }
}

/// The auxiliary information of a track fragment.
#[derive(Clone, Debug)]
pub struct SaiRecord {
    pub track_idx: u32,
    pub moof_sequence: u32,
    pub saiz: Vec<TrafSaiz>,
    pub saio: Vec<TrafSaio>,
}

/// The model of `SaiRecord`.
pub ghost struct SaiRecordModel {
    pub track_idx: u32,
    pub moof_sequence: u32,
    pub saiz: Seq<SaizModel>,
    pub saio: Seq<SaioModel>,
}

impl View for SaiRecord {
    type V = SaiRecordModel;

    open spec fn view(&self) -> SaiRecordModel {
        SaiRecordModel {
            track_idx: self.track_idx,
            moof_sequence: self.moof_sequence,
            saiz: views(self.saiz@),
            saio: views(self.saio@),
        }
    }
}

/// Sizes of auxiliary information in a track fragment.
#[derive(Clone, Debug, Default)]
pub struct TrafSaiz {
    pub aux_info_type: Option<[u8; 4]>,
    pub aux_info_type_parameter: Option<u32>,
    pub default_sample_info_size: u8,
    pub sample_count: u32,
    pub per_sample: Vec<u8>,
}

impl View for TrafSaiz {
    type V = SaizModel;

    open spec fn view(&self) -> SaizModel {
        SaizModel {
            aux_info_type: self.aux_info_type,
            aux_info_type_parameter: self.aux_info_type_parameter,
            default_sample_info_size: self.default_sample_info_size,
            sample_count: self.sample_count,
            per_sample: self.per_sample@,
        }
    }
}

/// Offsets of auxiliary information in a track fragment.
#[derive(Clone, Debug, Default)]
pub struct TrafSaio {
    pub version: u8,
    pub aux_info_type: Option<[u8; 4]>,
    pub aux_info_type_parameter: Option<u32>,
    pub offsets: Vec<u64>,
}

impl View for TrafSaio {
    type V = SaioModel;

    open spec fn view(&self) -> SaioModel {
        SaioModel {
            version: self.version,
            aux_info_type: self.aux_info_type,
            aux_info_type_parameter: self.aux_info_type_parameter,
            offsets: self.offsets@,
        }
    }
}

/// A protection system box of a movie fragment.
#[derive(Clone, Debug)]
pub struct MoofPsshRecord {
    pub moof_sequence: u32,
    pub pssh: PsshBox,
}

/// The model of `MoofPsshRecord`.
pub ghost struct MoofPsshModel {
    pub moof_sequence: u32,
    pub pssh: PsshModel,
}

impl View for MoofPsshRecord {
    type V = MoofPsshModel;

    open spec fn view(&self) -> MoofPsshModel {
        MoofPsshModel { moof_sequence: self.moof_sequence, pssh: self.pssh@ }
    }
}

/// A track fragment header gives the offset that data offsets are from.
pub const TFHD_BASE_DATA_OFFSET_PRESENT: u32 = 0x000001;
/// A track fragment header gives a sample description.
pub const TFHD_SAMPLE_DESCRIPTION_INDEX_PRESENT: u32 = 0x000002;
/// A track fragment header gives a default duration.
pub const TFHD_DEFAULT_SAMPLE_DURATION_PRESENT: u32 = 0x000008;
/// A track fragment header gives a default size.
pub const TFHD_DEFAULT_SAMPLE_SIZE_PRESENT: u32 = 0x000010;
/// A track fragment header gives default flags.
pub const TFHD_DEFAULT_SAMPLE_FLAGS_PRESENT: u32 = 0x000020;
/// Data offsets are from the start of the movie fragment.
pub const TFHD_DEFAULT_BASE_IS_MOOF: u32 = 0x020000;
/// A track run says where its data starts.
pub const TRUN_DATA_OFFSET_PRESENT: u32 = 0x000001;
/// A track run gives the flags of its first sample.
pub const TRUN_FIRST_SAMPLE_FLAGS_PRESENT: u32 = 0x000004;
/// A track run gives the duration of each sample.
pub const TRUN_SAMPLE_DURATION_PRESENT: u32 = 0x000100;
/// A track run gives the size of each sample.
pub const TRUN_SAMPLE_SIZE_PRESENT: u32 = 0x000200;
/// A track run gives the flags of each sample.
pub const TRUN_SAMPLE_FLAGS_PRESENT: u32 = 0x000400;
/// A track run gives the composition offset of each sample.
pub const TRUN_SAMPLE_COMPOSITION_TIME_OFFSETS_PRESENT: u32 = 0x000800;

/// Whether a flag, given as a power of two, is set.
pub open spec fn flag_set(flags: u32, flag: u32) -> bool {
    flags as int / flag as int % 2 == 1
}

/// Whether a flag, given as a power of two, is set.
pub fn has_flag(flags: u32, flag: u32) -> (r: bool)
    requires
        flag > 0,
    ensures
        r == flag_set(flags, flag),
{
    flags / flag % 2 == 1
}

/// What the boxes of a track fragment have said so far.
#[derive(Clone, Copy, Debug)]
pub struct TrafState {
    pub track_idx: usize,
    pub tfhd_flags: u32,
    pub base_data_offset: u64,
    pub default_sample_duration: u32,
    pub default_sample_size: u32,
    pub default_sample_flags: u32,
    /// When the first sample is decoded; `None` only where no box says so.
    pub base_media_decode_time: Option<i64>,
}

/// `n` where the flag is set, else 0.
pub open spec fn room(flags: u32, flag: u32, n: int) -> int {
    if flag_set(flags, flag) { n } else { 0 }
}

/// What a track fragment header says: which track, and what its samples default to. Fields
/// that the flags announce come one after the other; what they leave open comes from the
/// defaults of the track, and the data offset from the start of the fragment.
pub open spec fn tfhd_of(s: TrafState, b: Seq<u8>, moof_start: u64, tracks: Seq<TrackModel>) -> Outcome<TrafState> {
    let flags = be24(b, 1);
    let idx = track_index(tracks, be32(b, 4));
    let trex = tracks[idx].trex;
    let p1 = 8 + room(flags, TFHD_BASE_DATA_OFFSET_PRESENT, 8);
    let p2 = p1 + room(flags, TFHD_SAMPLE_DESCRIPTION_INDEX_PRESENT, 4);
    let p3 = p2 + room(flags, TFHD_DEFAULT_SAMPLE_DURATION_PRESENT, 4);
    let p4 = p3 + room(flags, TFHD_DEFAULT_SAMPLE_SIZE_PRESENT, 4);
    let p5 = p4 + room(flags, TFHD_DEFAULT_SAMPLE_FLAGS_PRESENT, 4);
    let s0 = TrafState {
        track_idx: idx as usize,
        tfhd_flags: flags,
        default_sample_duration: trex.default_sample_duration,
        default_sample_size: trex.default_sample_size,
        default_sample_flags: trex.default_sample_flags,
        ..s
    };
    let s3 = TrafState {
        default_sample_duration: if flag_set(flags, TFHD_DEFAULT_SAMPLE_DURATION_PRESENT) {
            be32(b, p2)
        } else {
            trex.default_sample_duration
        },
        ..s0
    };
    let s4 = TrafState {
        default_sample_size: if flag_set(flags, TFHD_DEFAULT_SAMPLE_SIZE_PRESENT) {
            be32(b, p3)
        } else {
            trex.default_sample_size
        },
        ..s3
    };
    if b.len() < 8 {
        (s, Err(Error::invalid("MP4: tfhd too short")))
    } else if idx == tracks.len() {
        (s, Err(Error::InvalidData(Detail::UnknownTrack(be32(b, 4)))))
    } else if p1 > 8 && b.len() < p1 {
        (s0, Err(Error::invalid("MP4: tfhd base_data_offset truncated")))
    } else if p2 > p1 && b.len() < p2 {
        (s0, Err(Error::invalid("MP4: tfhd sample_description_index truncated")))
    } else if p3 > p2 && b.len() < p3 {
        (s0, Err(Error::invalid("MP4: tfhd default_sample_duration truncated")))
    } else if p4 > p3 && b.len() < p4 {
        (s3, Err(Error::invalid("MP4: tfhd default_sample_size truncated")))
    } else if p5 > p4 && b.len() < p5 {
        (s4, Err(Error::invalid("MP4: tfhd default_sample_flags truncated")))
    } else {
        (
            TrafState {
                default_sample_flags: if flag_set(flags, TFHD_DEFAULT_SAMPLE_FLAGS_PRESENT) {
                    be32(b, p4)
                } else {
                    trex.default_sample_flags
                },
                base_data_offset: if flag_set(flags, TFHD_BASE_DATA_OFFSET_PRESENT) { be64(b, 8) } else { moof_start },
                ..s4
            },
            Ok(()),
        )
    }
}

/// Parses a track fragment header.
pub fn parse_tfhd(body: &[u8], moof_start: u64, tracks: &[Track], state: &mut TrafState) -> (r: Result<()>)
    ensures
        (*final(state), r) == tfhd_of(*old(state), body@, moof_start, views(tracks@)),
        r is Ok ==> final(state).track_idx < tracks@.len(),
{
    let len: usize = body.len();
    if len < 8 {
        return Err(Error::invalid("MP4: tfhd too short"));
    }
    let flags: u32 = read_u24(body, 1);
    let track_id: u32 = read_u32(body, 4);
    let track_idx: usize = match find_track(tracks, track_id) {
        Some(i) => i,
        None => return Err(Error::InvalidData(Detail::UnknownTrack(track_id))),
    };
    proof { lemma_track_index(views(tracks@), track_id); }
    let trex = tracks[track_idx].trex;
    assert(trex == views(tracks@)[track_idx as int].trex);
    state.track_idx = track_idx;
    state.tfhd_flags = flags;
    state.default_sample_duration = trex.default_sample_duration;
    state.default_sample_size = trex.default_sample_size;
    state.default_sample_flags = trex.default_sample_flags;
    let mut base: u64 = moof_start;
    let mut off: usize = 8;
    if has_flag(flags, TFHD_BASE_DATA_OFFSET_PRESENT) {
        if len - off < 8 {
            return Err(Error::invalid("MP4: tfhd base_data_offset truncated"));
        }
        base = read_u64(body, off);
        off += 8;
    }
    if has_flag(flags, TFHD_SAMPLE_DESCRIPTION_INDEX_PRESENT) {
        if len - off < 4 {
            return Err(Error::invalid("MP4: tfhd sample_description_index truncated"));
        }
        off += 4;
    }
    if has_flag(flags, TFHD_DEFAULT_SAMPLE_DURATION_PRESENT) {
        if len - off < 4 {
            return Err(Error::invalid("MP4: tfhd default_sample_duration truncated"));
        }
        state.default_sample_duration = read_u32(body, off);
        off += 4;
    }
    if has_flag(flags, TFHD_DEFAULT_SAMPLE_SIZE_PRESENT) {
        if len - off < 4 {
            return Err(Error::invalid("MP4: tfhd default_sample_size truncated"));
        }
        state.default_sample_size = read_u32(body, off);
        off += 4;
    }
    if has_flag(flags, TFHD_DEFAULT_SAMPLE_FLAGS_PRESENT) {
        if len - off < 4 {
            return Err(Error::invalid("MP4: tfhd default_sample_flags truncated"));
        }
        state.default_sample_flags = read_u32(body, off);
    }
    state.base_data_offset = base;
    Ok(())
}

/// The content of a `tfdt` payload: when the first sample of the fragment is decoded.
pub open spec fn tfdt_of(b: Seq<u8>) -> Result<i64> {
    if b.len() < 4 {
        Err(Error::invalid("MP4: tfdt too short"))
    } else if b[0] == 1 {
        if b.len() < 12 { Err(Error::invalid("MP4: tfdt v1 too short")) } else { Ok(s64(be64(b, 4))) }
    } else {
        if b.len() < 8 { Err(Error::invalid("MP4: tfdt v0 too short")) } else { Ok(be32(b, 4) as i64) }
    }
}

/// Parses the decode time of a track fragment.
pub fn parse_tfdt(body: &[u8]) -> (r: Result<i64>)
    ensures
        r == tfdt_of(body@),
{
    if body.len() < 4 {
        return Err(Error::invalid("MP4: tfdt too short"));
    }
    if body[0] == 1 {
        if body.len() < 12 {
            return Err(Error::invalid("MP4: tfdt v1 too short"));
        }
        Ok(to_i64(read_u64(body, 4)))
    } else {
        if body.len() < 8 {
            return Err(Error::invalid("MP4: tfdt v0 too short"));
        }
        Ok(read_u32(body, 4) as i64)
    }
}

/// A row of a track run; what is missing takes a default.
#[derive(Clone, Copy, Debug)]
pub struct TrunSample {
    pub duration: Option<u32>,
    pub size: Option<u32>,
    pub flags: Option<u32>,
    pub composition_time_offset: Option<i32>,
}

/// A track run.
pub struct ParsedTrun {
    pub data_offset: Option<i32>,
    pub first_sample_flags: Option<u32>,
    pub samples: Vec<TrunSample>,
}

/// The model of `ParsedTrun`.
pub ghost struct TrunModel {
    pub data_offset: Option<i32>,
    pub first_sample_flags: Option<u32>,
    pub samples: Seq<TrunSample>,
}

impl View for ParsedTrun {
    type V = TrunModel;

    open spec fn view(&self) -> TrunModel {
        TrunModel {
            data_offset: self.data_offset,
            first_sample_flags: self.first_sample_flags,
            samples: self.samples@,
        }
    }
}

/// The number at byte `p` where the flag is set.
pub open spec fn word_if(b: Seq<u8>, flags: u32, flag: u32, p: int) -> Option<u32> {
    if flag_set(flags, flag) { Some(be32(b, p)) } else { None }
}

/// The row of a track run at byte `p`: the fields that the flags announce.
pub open spec fn trun_sample_at(b: Seq<u8>, flags: u32, p: int) -> TrunSample {
    let p1 = p + room(flags, TRUN_SAMPLE_DURATION_PRESENT, 4);
    let p2 = p1 + room(flags, TRUN_SAMPLE_SIZE_PRESENT, 4);
    let p3 = p2 + room(flags, TRUN_SAMPLE_FLAGS_PRESENT, 4);
    TrunSample {
        duration: word_if(b, flags, TRUN_SAMPLE_DURATION_PRESENT, p),
        size: word_if(b, flags, TRUN_SAMPLE_SIZE_PRESENT, p1),
        flags: word_if(b, flags, TRUN_SAMPLE_FLAGS_PRESENT, p2),
        composition_time_offset: match word_if(b, flags, TRUN_SAMPLE_COMPOSITION_TIME_OFFSETS_PRESENT, p3) {
            Some(x) => Some(s32(x)),
            None => None,
        },
    }
}

/// The size of a row of a track run.
pub open spec fn trun_row(flags: u32) -> int {
    room(flags, TRUN_SAMPLE_DURATION_PRESENT, 4) + room(flags, TRUN_SAMPLE_SIZE_PRESENT, 4) + room(
        flags,
        TRUN_SAMPLE_FLAGS_PRESENT,
        4,
    ) + room(flags, TRUN_SAMPLE_COMPOSITION_TIME_OFFSETS_PRESENT, 4)
}

/// `n` rows of a track run from byte `p` on.
pub open spec fn trun_samples_at(b: Seq<u8>, flags: u32, p: int, n: nat) -> Seq<TrunSample> {
    Seq::new(n, |i: int| trun_sample_at(b, flags, p + trun_row(flags) * i))
}

/// The content of a `trun` payload.
pub open spec fn trun_of(b: Seq<u8>) -> Result<TrunModel> {
    let flags = be24(b, 1);
    let count = be32(b, 4);
    let p1 = 8 + room(flags, TRUN_DATA_OFFSET_PRESENT, 4);
    let p2 = p1 + room(flags, TRUN_FIRST_SAMPLE_FLAGS_PRESENT, 4);
    if b.len() < 8 {
        Err(Error::invalid("MP4: trun too short"))
    } else if p1 > 8 && b.len() < p1 {
        Err(Error::invalid("MP4: trun data_offset truncated"))
    } else if p2 > p1 && b.len() < p2 {
        Err(Error::invalid("MP4: trun first_sample_flags truncated"))
    } else if b.len() < p2 + trun_row(flags) * count {
        Err(Error::invalid("MP4: trun samples truncated"))
    } else {
        Ok(
            TrunModel {
                data_offset: match word_if(b, flags, TRUN_DATA_OFFSET_PRESENT, 8) {
                    Some(x) => Some(s32(x)),
                    None => None,
                },
                first_sample_flags: word_if(b, flags, TRUN_FIRST_SAMPLE_FLAGS_PRESENT, p1),
                samples: trun_samples_at(b, flags, p2, count as nat),
            },
        )
    }
}

/// Reads the row of a track run at byte `p`.
fn read_trun_sample(body: &[u8], flags: u32, p: usize) -> (s: TrunSample)
    requires
        p + trun_row(flags) <= body@.len(),
    ensures
        s == trun_sample_at(body@, flags, p as int),
{
    let len: usize = body.len();
    let mut off: usize = p;
    let mut s = TrunSample { duration: None, size: None, flags: None, composition_time_offset: None };
    if has_flag(flags, TRUN_SAMPLE_DURATION_PRESENT) {
        s.duration = Some(read_u32(body, off));
        off += 4;
    }
    if has_flag(flags, TRUN_SAMPLE_SIZE_PRESENT) {
        s.size = Some(read_u32(body, off));
        off += 4;
    }
    if has_flag(flags, TRUN_SAMPLE_FLAGS_PRESENT) {
        s.flags = Some(read_u32(body, off));
        off += 4;
    }
    if has_flag(flags, TRUN_SAMPLE_COMPOSITION_TIME_OFFSETS_PRESENT) {
        s.composition_time_offset = Some(to_i32(read_u32(body, off)));
    }
    s
}

/// The size of a row of a track run.
fn row_size(flags: u32) -> (r: usize)
    ensures
        r == trun_row(flags),
        r <= 16,
{
    let a: usize = if has_flag(flags, TRUN_SAMPLE_DURATION_PRESENT) { 4 } else { 0 };
    let b: usize = if has_flag(flags, TRUN_SAMPLE_SIZE_PRESENT) { 4 } else { 0 };
    let c: usize = if has_flag(flags, TRUN_SAMPLE_FLAGS_PRESENT) { 4 } else { 0 };
    let d: usize = if has_flag(flags, TRUN_SAMPLE_COMPOSITION_TIME_OFFSETS_PRESENT) { 4 } else { 0 };
    a + b + c + d
}

/// Parses a track run.
pub fn parse_trun(body: &[u8]) -> (r: Result<ParsedTrun>)
    ensures
        seen(r) == trun_of(body@),
{
    let len: usize = body.len();
    if len < 8 {
        return Err(Error::invalid("MP4: trun too short"));
    }
    let flags: u32 = read_u24(body, 1);
    let count: u32 = read_u32(body, 4);
    let mut data_offset: Option<i32> = None;
    let mut first_sample_flags: Option<u32> = None;
    let mut off: usize = 8;
    if has_flag(flags, TRUN_DATA_OFFSET_PRESENT) {
        if len - off < 4 {
            return Err(Error::invalid("MP4: trun data_offset truncated"));
        }
        data_offset = Some(to_i32(read_u32(body, off)));
        off += 4;
    }
    if has_flag(flags, TRUN_FIRST_SAMPLE_FLAGS_PRESENT) {
        if len - off < 4 {
            return Err(Error::invalid("MP4: trun first_sample_flags truncated"));
        }
        first_sample_flags = Some(read_u32(body, off));
        off += 4;
    }
    let row: usize = row_size(flags);
    proof {
        assert(0 <= row * count <= 16 * 0xFFFF_FFFF) by (nonlinear_arith)
            requires 0 <= row <= 16, 0 <= count <= 0xFFFF_FFFF;
    }
    if ((len - off) as u64) < (row as u64) * (count as u64) {
        return Err(Error::invalid("MP4: trun samples truncated"));
    }
    let mut samples: Vec<TrunSample> = Vec::new();
    let mut i: u32 = 0;
    let mut p: usize = off;
    proof { assert(row * 0 == 0); }
    while i < count
        invariant
            len == body@.len(),
            i <= count,
            row == trun_row(flags),
            p == off + row * i,
            off + row * count <= len,
            samples@ =~= trun_samples_at(body@, flags, off as int, i as nat),
        decreases count - i,
    {
        proof {
            assert(row * (i + 1) == row * i + row) by (nonlinear_arith);
            assert(row * (i + 1) <= row * count) by (nonlinear_arith)
                requires i + 1 <= count, row >= 0;
        }
        samples.push(read_trun_sample(body, flags, p));
        p += row;
        i += 1;
    }
    Ok(ParsedTrun { data_offset, first_sample_flags, samples })
}

/// Where the next sample of a track fragment starts, when it is decoded, and the samples so far.
pub ghost struct RunState {
    pub offset: u64,
    pub dts: i64,
    pub samples: Seq<SampleRef>,
}

/// The value, or the default where there is none.
pub open spec fn or_default<T>(o: Option<T>, default: T) -> T {
    match o {
        Some(x) => x,
        None => default,
    }
}

/// The flags of the `i`th sample of a run: its own, those for the first sample, or the default.
pub open spec fn run_flags(run: TrunModel, i: int, st: TrafState) -> u32 {
    match run.samples[i].flags {
        Some(f) => f,
        None => if i == 0 {
            or_default(run.first_sample_flags, st.default_sample_flags)
        } else {
            st.default_sample_flags
        },
    }
}

/// What the `i`th sample of a run adds; times are shifted so that the media starts at 0.
pub open spec fn run_step(s: RunState, run: TrunModel, i: int, st: TrafState, shift: i64) -> RunState {
    let row = run.samples[i];
    let size = or_default(row.size, st.default_sample_size);
    let duration = or_default(row.duration, st.default_sample_duration) as i64;
    RunState {
        offset: clamp_u64(s.offset + size),
        dts: clamp64(s.dts + duration),
        samples: s.samples.push(
            SampleRef {
                track_idx: low32(st.track_idx as int),
                offset: s.offset,
                size,
                pts: clamp64(clamp64(s.dts + or_default(row.composition_time_offset, 0)) - shift),
                dts: clamp64(s.dts - shift),
                duration,
                keyframe: !flag_set(run_flags(run, i, st), SAMPLE_IS_NON_SYNC),
            },
        ),
    }
}

/// What the samples of a run from the `i`th on add.
pub open spec fn run_from(s: RunState, run: TrunModel, i: int, st: TrafState, shift: i64) -> RunState
    decreases run.samples.len() - i,
{
    if i >= run.samples.len() { s } else { run_from(run_step(s, run, i, st, shift), run, i + 1, st, shift) }
}

/// What a run adds. It starts at its own offset from the base of the fragment, or else where
/// the run before it ends.
pub open spec fn run_of(s: RunState, run: TrunModel, st: TrafState, shift: i64) -> RunState {
    let start = match run.data_offset {
        Some(d) => wrap_u64(st.base_data_offset + d),
        None => s.offset,
    };
    run_from(RunState { offset: start, ..s }, run, 0, st, shift)
}

/// What one child of a track fragment adds to its samples.
pub open spec fn runs_step(s: RunState, c: Child, st: TrafState, shift: i64) -> Outcome<RunState> {
    if c.kind != TRUN {
        (s, Ok(()))
    } else {
        match body_of(c) {
            Err(e) => (s, Err(e)),
            Ok(d) => match trun_of(d) {
                Err(e) => (s, Err(e)),
                Ok(run) => (run_of(s, run, st, shift), Ok(())),
            },
        }
    }
}

/// What the runs of a track fragment from byte `pos` on add to its samples.
pub open spec fn runs_from(b: Seq<u8>, pos: int, s: RunState, st: TrafState, shift: i64) -> Outcome<RunState> {
    walk(b, pos, s, |s: RunState, c: Child| runs_step(s, c, st, shift))
}

/// Adds the samples of a run.
fn add_run(run: &ParsedTrun, st: &TrafState, shift: i64, offset: &mut u64, dts: &mut i64, samples: &mut Vec<SampleRef>)
    ensures
        (RunState { offset: *final(offset), dts: *final(dts), samples: final(samples)@ }) == run_of(
            RunState { offset: *old(offset), dts: *old(dts), samples: old(samples)@ },
            run@,
            *st,
            shift,
        ),
{
    let ghost s0 = RunState { offset: *offset, dts: *dts, samples: samples@ };
    if let Some(d) = run.data_offset {
        let s: i128 = st.base_data_offset as i128 + d as i128;
        *offset = if s < 0 {
            (s + 0x1_0000_0000_0000_0000) as u64
        } else if s > 0xFFFF_FFFF_FFFF_FFFF {
            (s - 0x1_0000_0000_0000_0000) as u64
        } else {
            s as u64
        };
    }
    let track_idx: u32 = length32(st.track_idx, 0);
    let mut i: usize = 0;
    while i < run.samples.len()
        invariant
            i <= run.samples@.len(),
            track_idx == low32(st.track_idx as int),
            run_of(s0, run@, *st, shift) == run_from(
                RunState { offset: *offset, dts: *dts, samples: samples@ },
                run@,
                i as int,
                *st,
                shift,
            ),
        decreases run.samples@.len() - i,
    {
        let row = run.samples[i];
        let duration: i64 = match row.duration {
            Some(d) => d as i64,
            None => st.default_sample_duration as i64,
        };
        let size: u32 = match row.size {
            Some(n) => n,
            None => st.default_sample_size,
        };
        let flags: u32 = match row.flags {
            Some(f) => f,
            None => if i == 0 {
                match run.first_sample_flags {
                    Some(f) => f,
                    None => st.default_sample_flags,
                }
            } else {
                st.default_sample_flags
            },
        };
        let later: i32 = match row.composition_time_offset {
            Some(d) => d,
            None => 0,
        };
        samples.push(
            SampleRef {
                track_idx,
                offset: *offset,
                size,
                pts: clamped_sub(clamped_add(*dts, later as i64), shift),
                dts: clamped_sub(*dts, shift),
                duration,
                keyframe: !has_flag(flags, SAMPLE_IS_NON_SYNC),
            },
        );
        *offset = clamped_add_u64(*offset, size as u64);
        *dts = clamped_add(*dts, duration);
        i += 1;
    }
}

/// What the boxes of a track fragment, but for its runs, have said so far.
pub ghost struct TrafScan {
    pub state: TrafState,
    pub tfhd_seen: bool,
    pub senc_body: Option<Seq<u8>>,
    pub saiz: Seq<SaizModel>,
    pub saio: Seq<SaioModel>,
}

/// What one child of a track fragment says.
pub open spec fn scan_step(s: TrafScan, c: Child, moof_start: u64, tracks: Seq<TrackModel>) -> Outcome<TrafScan> {
    if c.kind != TFHD && c.kind != TFDT && c.kind != SENC && c.kind != SAIZ && c.kind != SAIO {
        (s, Ok(()))
    } else {
        match body_of(c) {
            Err(e) => (s, Err(e)),
            Ok(d) => if c.kind == TFHD {
                let (state, r) = tfhd_of(s.state, d, moof_start, tracks);
                (TrafScan { state, tfhd_seen: s.tfhd_seen || r is Ok, ..s }, r)
            } else if c.kind == TFDT {
                match tfdt_of(d) {
                    Err(e) => (s, Err(e)),
                    Ok(t) => (
                        TrafScan { state: TrafState { base_media_decode_time: Some(t), ..s.state }, ..s },
                        Ok(()),
                    ),
                }
            } else if c.kind == SENC {
                (TrafScan { senc_body: Some(d), ..s }, Ok(()))
            } else if c.kind == SAIZ {
                match saiz_of(d) {
                    Err(e) => (s, Err(e)),
                    Ok(x) => (TrafScan { saiz: s.saiz.push(x), ..s }, Ok(())),
                }
            } else {
                match saio_of(d) {
                    Err(e) => (s, Err(e)),
                    Ok(x) => (TrafScan { saio: s.saio.push(x), ..s }, Ok(())),
                }
            },
        }
    }
}

/// What a track fragment from byte `pos` on says.
pub open spec fn scan_from(b: Seq<u8>, pos: int, s: TrafScan, moof_start: u64, tracks: Seq<TrackModel>) -> Outcome<
    TrafScan,
> {
    walk(b, pos, s, |s: TrafScan, c: Child| scan_step(s, c, moof_start, tracks))
}

/// Nothing said yet.
pub open spec fn no_scan() -> TrafScan {
    TrafScan {
        state: TrafState {
            track_idx: 0,
            tfhd_flags: 0,
            base_data_offset: 0,
            default_sample_duration: 0,
            default_sample_size: 0,
            default_sample_flags: 0,
            base_media_decode_time: None,
        },
        tfhd_seen: false,
        senc_body: None,
        saiz: Seq::empty(),
        saio: Seq::empty(),
    }
}

/// The boxes of a track fragment, but for its runs.
pub struct Scan {
    pub state: TrafState,
    pub tfhd_seen: bool,
    pub senc_body: Option<Vec<u8>>,
    pub saiz: Vec<TrafSaiz>,
    pub saio: Vec<TrafSaio>,
}

impl View for Scan {
    type V = TrafScan;

    open spec fn view(&self) -> TrafScan {
        TrafScan {
            state: self.state,
            tfhd_seen: self.tfhd_seen,
            senc_body: opt_view(self.senc_body),
            saiz: views(self.saiz@),
            saio: views(self.saio@),
        }
    }
}

/// Reads the boxes of a track fragment, but for its runs.
fn scan_traf(body: &[u8], moof_start: u64, tracks: &[Track]) -> (r: Result<Scan>)
    ensures
        match scan_from(body@, 0, no_scan(), moof_start, views(tracks@)) {
            (s, Ok(_)) => r matches Ok(x) && x@ == s && (x.tfhd_seen ==> x.state.track_idx < tracks@.len()),
            (_, Err(e)) => r matches Err(e2) && e2 == e,
        },
{
    let mut s = Scan {
        state: TrafState {
            track_idx: 0,
            tfhd_flags: 0,
            base_data_offset: 0,
            default_sample_duration: 0,
            default_sample_size: 0,
            default_sample_flags: 0,
            base_media_decode_time: None,
        },
        tfhd_seen: false,
        senc_body: None,
        saiz: Vec::new(),
        saio: Vec::new(),
    };
    proof {
        assert(s@.saiz =~= Seq::empty());
        assert(s@.saio =~= Seq::empty());
    }
    let mut pos: usize = 0;
    while pos < body.len()
        invariant
            pos <= body@.len(),
            s.tfhd_seen ==> s.state.track_idx < tracks@.len(),
            scan_from(body@, 0, no_scan(), moof_start, views(tracks@)) == scan_from(
                body@,
                pos as int,
                s@,
                moof_start,
                views(tracks@),
            ),
        decreases body@.len() - pos,
    {
        let c = next_child(body, pos)?;
        if c.kind == TFHD {
            let d = c.body()?;
            parse_tfhd(d, moof_start, tracks, &mut s.state)?;
            s.tfhd_seen = true;
        } else if c.kind == TFDT {
            let d = c.body()?;
            s.state.base_media_decode_time = Some(parse_tfdt(d)?);
        } else if c.kind == SENC {
            let d = c.body()?;
            s.senc_body = Some(copy_bytes(d));
        } else if c.kind == SAIZ {
            let d = c.body()?;
            let x = parse_saiz(d)?;
            let row = TrafSaiz {
                aux_info_type: x.aux_info_type,
                aux_info_type_parameter: x.aux_info_type_parameter,
                default_sample_info_size: x.default_sample_info_size,
                sample_count: x.sample_count,
                per_sample: x.per_sample,
            };
            proof { lemma_views_push(s.saiz@, row); }
            s.saiz.push(row);
        } else if c.kind == SAIO {
            let d = c.body()?;
            let x = parse_saio(d)?;
            let row = TrafSaio {
                version: x.version,
                aux_info_type: x.aux_info_type,
                aux_info_type_parameter: x.aux_info_type_parameter,
                offsets: x.offsets,
            };
            proof { lemma_views_push(s.saio@, row); }
            s.saio.push(row);
        }
        pos = c.next;
    }
    Ok(s)
}

/// What fragments have added so far: samples, the decode time that each track has come to, and
/// the encryption and auxiliary information of samples.
pub ghost struct FragModel {
    pub samples: Seq<SampleRef>,
    pub next_dts: Seq<i64>,
    pub sencs: Seq<SencRecordModel>,
    pub sais: Seq<SaiRecordModel>,
}

/// The records with the encryption information of a track fragment. It is left out where the track
/// has no encryption defaults, or where it is malformed.
pub open spec fn with_senc(f: FragModel, s: TrafScan, tracks: Seq<TrackModel>, sequence: u32) -> FragModel {
    match (s.senc_body, tracks[s.state.track_idx as int].tenc) {
        (Some(b), Some(tenc)) => match senc_of(b, tenc.default_per_sample_iv_size) {
            Ok(senc) => FragModel {
                sencs: f.sencs.push(
                    SencRecordModel { track_idx: low32(s.state.track_idx as int), moof_sequence: sequence, senc },
                ),
                ..f
            },
            Err(_) => f,
        },
        _ => f,
    }
}

/// The records with the auxiliary information of a track fragment, where it has any.
pub open spec fn with_sai(f: FragModel, s: TrafScan, sequence: u32) -> FragModel {
    if s.saiz.len() == 0 && s.saio.len() == 0 {
        f
    } else {
        FragModel {
            sais: f.sais.push(
                SaiRecordModel {
                    track_idx: low32(s.state.track_idx as int),
                    moof_sequence: sequence,
                    saiz: s.saiz,
                    saio: s.saio,
                },
            ),
            ..f
        }
    }
}

/// What a track fragment adds.
#[verifier::opaque]
pub open spec fn traf_of(f: FragModel, b: Seq<u8>, moof_start: u64, tracks: Seq<TrackModel>, sequence: u32) -> Outcome<
    FragModel,
> {
    match scan_from(b, 0, no_scan(), moof_start, tracks) {
        (_, Err(e)) => (f, Err(e)),
        (s, Ok(_)) => if !s.tfhd_seen {
            (f, Err(Error::invalid("MP4: traf missing tfhd")))
        } else {
            let idx = s.state.track_idx as int;
            let f1 = with_sai(with_senc(f, s, tracks, sequence), s, sequence);
            let start = RunState {
                offset: s.state.base_data_offset,
                dts: or_default(s.state.base_media_decode_time, f.next_dts[idx]),
                samples: f.samples,
            };
            match runs_from(b, 0, start, s.state, leading_media_time(tracks[idx].elst)) {
                (end, Err(e)) => (FragModel { samples: end.samples, ..f1 }, Err(e)),
                (end, Ok(_)) => (
                    FragModel { samples: end.samples, next_dts: f.next_dts.update(idx, end.dts), ..f1 },
                    Ok(()),
                ),
            }
        },
    }
}

/// What fragments have added so far.
pub open spec fn frag_of(
    samples: Vec<SampleRef>,
    next_dts: Vec<i64>,
    senc_records: Vec<SencRecord>,
    sai_records: Vec<SaiRecord>,
) -> FragModel {
    FragModel { samples: samples@, next_dts: next_dts@, sencs: views(senc_records@), sais: views(sai_records@) }
}

/// Adds the samples of the runs of a track fragment, and gives the decode time behind them.
fn add_runs(body: &[u8], st: &TrafState, shift: i64, start: i64, samples: &mut Vec<SampleRef>) -> (r: Result<i64>)
    ensures
        ({
            let (end, out) = runs_from(
                body@,
                0,
                RunState { offset: st.base_data_offset, dts: start, samples: old(samples)@ },
                *st,
                shift,
            );
            &&& final(samples)@ == end.samples
            &&& match out {
                Ok(_) => r == Ok::<i64, Error>(end.dts),
                Err(e) => r == Err::<i64, Error>(e),
            }
        }),
{
    let mut offset: u64 = st.base_data_offset;
    let mut dts: i64 = start;
    let mut pos: usize = 0;
    let ghost s0 = RunState { offset, dts, samples: samples@ };
    while pos < body.len()
        invariant
            pos <= body@.len(),
            s0 == (RunState { offset: st.base_data_offset, dts: start, samples: old(samples)@ }),
            runs_from(body@, 0, s0, *st, shift) == runs_from(
                body@,
                pos as int,
                RunState { offset, dts, samples: samples@ },
                *st,
                shift,
            ),
        decreases body@.len() - pos,
    {
        let c = next_child(body, pos)?;
        if c.kind == TRUN {
            let d = c.body()?;
            let run = parse_trun(d)?;
            add_run(&run, st, shift, &mut offset, &mut dts, samples);
        }
        pos = c.next;
    }
    Ok(dts)
}

/// Parses a track fragment and adds what it says.
pub fn parse_traf(
    body: &[u8],
    moof_start: u64,
    tracks: &[Track],
    samples: &mut Vec<SampleRef>,
    next_dts: &mut Vec<i64>,
    moof_sequence: u32,
    senc_records: &mut Vec<SencRecord>,
    sai_records: &mut Vec<SaiRecord>,
) -> (r: Result<()>)
    requires
        tracks@.len() <= old(next_dts)@.len(),
    ensures
        (frag_of(*final(samples), *final(next_dts), *final(senc_records), *final(sai_records)), r) == traf_of(
            frag_of(*old(samples), *old(next_dts), *old(senc_records), *old(sai_records)),
            body@,
            moof_start,
            views(tracks@),
            moof_sequence,
        ),
        final(next_dts)@.len() == old(next_dts)@.len(),
{
    proof { reveal(traf_of); }
    let scan = scan_traf(body, moof_start, tracks)?;
    if !scan.tfhd_seen {
        return Err(Error::invalid("MP4: traf missing tfhd"));
    }
    let ghost s = scan@;
    let ghost f = frag_of(*samples, *next_dts, *senc_records, *sai_records);
    let state = scan.state;
    let track = &tracks[state.track_idx];
    assert(track@ == views(tracks@)[state.track_idx as int]);
    let track_idx: u32 = length32(state.track_idx, 0);
    if let Some(b) = &scan.senc_body {
        if let Some(tenc) = &track.tenc {
            if let Ok(senc) = parse_senc(b.as_slice(), tenc.default_per_sample_iv_size) {
                let row = SencRecord { track_idx, moof_sequence, senc };
                proof { lemma_views_push(senc_records@, row); }
                senc_records.push(row);
            }
        }
    }
    assert(frag_of(*samples, *next_dts, *senc_records, *sai_records) == with_senc(f, s, views(tracks@), moof_sequence));
    if scan.saiz.len() != 0 || scan.saio.len() != 0 {
        let row = SaiRecord { track_idx, moof_sequence, saiz: scan.saiz, saio: scan.saio };
        proof { lemma_views_push(sai_records@, row); }
        sai_records.push(row);
    }
    let start: i64 = match state.base_media_decode_time {
        Some(t) => t,
        None => next_dts[state.track_idx],
    };
    let shift: i64 = elst_leading_media_time(track);
    let dts: i64 = add_runs(body, &state, shift, start, samples)?;
    next_dts.set(state.track_idx, dts);
    Ok(())
}

/// What a movie fragment has said so far: its number, what it adds, and the payloads of its protection
/// system boxes.
pub ghost struct MoofScan {
    pub sequence: u32,
    pub frag: FragModel,
    pub psshes: Seq<Seq<u8>>,
}

/// The number of a movie fragment, where a child is its header and gives one.
pub open spec fn number_step(n: u32, c: Child) -> u32 {
    if c.kind == MFHD && c.data.len() >= 8 { be32(c.data, 4) } else { n }
}

/// The number that the header of a movie fragment from byte `pos` on gives, or else `n`.
pub open spec fn number_from(b: Seq<u8>, pos: int, n: u32) -> u32 {
    walk_lenient(b, pos, n, |n: u32, c: Child| number_step(n, c))
}

/// Finds the number of a movie fragment, wherever its header stands; 0 where there is none.
fn find_number(body: &[u8]) -> (r: u32)
    ensures
        r == number_from(body@, 0, 0),
{
    let mut n: u32 = 0;
    let mut pos: usize = 0;
    while pos < body.len()
        invariant
            pos <= body@.len(),
            number_from(body@, 0, 0) == number_from(body@, pos as int, n),
        decreases body@.len() - pos,
    {
        let c = match next_child(body, pos) {
            Ok(c) => c,
            Err(_) => return n,
        };
        if !c.whole {
            return n;
        }
        if c.kind == MFHD && c.data.len() >= 8 {
            n = read_u32(c.data, 4);
        }
        pos = c.next;
    }
    n
}

/// What one child of a movie fragment says.
pub open spec fn moof_step(s: MoofScan, c: Child, moof_start: u64, tracks: Seq<TrackModel>) -> Outcome<MoofScan> {
    if c.kind != MFHD && c.kind != TRAF && c.kind != PSSH {
        (s, Ok(()))
    } else {
        match body_of(c) {
            Err(e) => (s, Err(e)),
            Ok(d) => if c.kind == MFHD {
                (MoofScan { sequence: if d.len() >= 8 { be32(d, 4) } else { s.sequence }, ..s }, Ok(()))
            } else if c.kind == TRAF {
                let (frag, r) = traf_of(s.frag, d, moof_start, tracks, s.sequence);
                (MoofScan { frag, ..s }, r)
            } else {
                (MoofScan { psshes: s.psshes.push(d), ..s }, Ok(()))
            },
        }
    }
}

/// What a movie fragment from byte `pos` on says.
pub open spec fn moof_from(b: Seq<u8>, pos: int, s: MoofScan, moof_start: u64, tracks: Seq<TrackModel>) -> Outcome<
    MoofScan,
> {
    walk(b, pos, s, |s: MoofScan, c: Child| moof_step(s, c, moof_start, tracks))
}

/// The protection system boxes of a fragment that are well formed, behind those in `acc`.
pub open spec fn moof_psshes_of(bodies: Seq<Seq<u8>>, sequence: u32, acc: Seq<MoofPsshModel>) -> Seq<MoofPsshModel>
    decreases bodies.len(),
{
    if bodies.len() == 0 {
        acc
    } else {
        moof_psshes_of(
            bodies.drop_first(),
            sequence,
            match pssh_of(bodies[0]) {
                Ok(pssh) => acc.push(MoofPsshModel { moof_sequence: sequence, pssh }),
                Err(_) => acc,
            },
        )
    }
}

/// What a movie fragment adds. What it records carries its number, wherever that stands; its protection
/// system boxes count only where the fragment is well formed.
pub open spec fn moof_of(
    f: FragModel,
    psshes: Seq<MoofPsshModel>,
    b: Seq<u8>,
    moof_start: u64,
    tracks: Seq<TrackModel>,
) -> (FragModel, Seq<MoofPsshModel>, Result<()>) {
    match moof_from(b, 0, MoofScan { sequence: number_from(b, 0, 0), frag: f, psshes: Seq::empty() }, moof_start, tracks) {
        (s, Err(e)) => (s.frag, psshes, Err(e)),
        (s, Ok(_)) => (s.frag, moof_psshes_of(s.psshes, s.sequence, psshes), Ok(())),
    }
}

/// Adds the protection system boxes of a fragment that are well formed.
fn add_psshes(bodies: &Vec<Vec<u8>>, moof_sequence: u32, moof_psshes: &mut Vec<MoofPsshRecord>)
    ensures
        views(final(moof_psshes)@) == moof_psshes_of(views(bodies@), moof_sequence, views(old(moof_psshes)@)),
{
    let ghost all = views(bodies@);
    let ghost end = all.len() as int;
    let mut i: usize = 0;
    proof { assert(all.subrange(0, end) =~= all); }
    while i < bodies.len()
        invariant
            i <= bodies@.len(),
            all == views(bodies@),
            end == all.len(),
            moof_psshes_of(all, moof_sequence, views(old(moof_psshes)@)) == moof_psshes_of(
                all.subrange(i as int, end),
                moof_sequence,
                views(moof_psshes@),
            ),
        decreases bodies@.len() - i,
    {
        let b = &bodies[i];
        proof {
            let rest = all.subrange(i as int, end);
            assert(rest[0] == b@);
            assert(rest.drop_first() =~= all.subrange(i + 1, end));
        }
        if let Ok(pssh) = parse_pssh(b.as_slice()) {
            let row = MoofPsshRecord { moof_sequence, pssh };
            proof { lemma_views_push(moof_psshes@, row); }
            moof_psshes.push(row);
        }
        i += 1;
    }
}

/// Parses a movie fragment and adds what it says.
pub fn parse_moof(
    moof: &MoofRecord,
    tracks: &[Track],
    samples: &mut Vec<SampleRef>,
    next_dts: &mut Vec<i64>,
    senc_records: &mut Vec<SencRecord>,
    sai_records: &mut Vec<SaiRecord>,
    moof_psshes: &mut Vec<MoofPsshRecord>,
) -> (r: Result<()>)
    requires
        tracks@.len() <= old(next_dts)@.len(),
    ensures
        (
            frag_of(*final(samples), *final(next_dts), *final(senc_records), *final(sai_records)),
            views(final(moof_psshes)@),
            r,
        ) == moof_of(
            frag_of(*old(samples), *old(next_dts), *old(senc_records), *old(sai_records)),
            views(old(moof_psshes)@),
            moof.body@,
            moof.moof_start,
            views(tracks@),
        ),
        final(next_dts)@.len() == old(next_dts)@.len(),
{
    let body = moof.body.as_slice();
    let mut moof_sequence: u32 = find_number(body);
    let mut bodies: Vec<Vec<u8>> = Vec::new();
    let mut pos: usize = 0;
    let ghost s0 = MoofScan {
        sequence: moof_sequence,
        frag: frag_of(*samples, *next_dts, *senc_records, *sai_records),
        psshes: Seq::empty(),
    };
    proof { assert(views(bodies@) =~= Seq::<Seq<u8>>::empty()); }
    while pos < body.len()
        invariant
            pos <= body@.len(),
            body@ == moof.body@,
            tracks@.len() <= next_dts@.len(),
            next_dts@.len() == old(next_dts)@.len(),
            moof_psshes@ == old(moof_psshes)@,
            s0 == (MoofScan {
                sequence: number_from(moof.body@, 0, 0),
                frag: frag_of(*old(samples), *old(next_dts), *old(senc_records), *old(sai_records)),
                psshes: Seq::empty(),
            }),
            moof_from(body@, 0, s0, moof.moof_start, views(tracks@)) == moof_from(
                body@,
                pos as int,
                MoofScan {
                    sequence: moof_sequence,
                    frag: frag_of(*samples, *next_dts, *senc_records, *sai_records),
                    psshes: views(bodies@),
                },
                moof.moof_start,
                views(tracks@),
            ),
        decreases body@.len() - pos,
    {
        let c = next_child(body, pos)?;
        if c.kind == MFHD {
            let d = c.body()?;
            if d.len() >= 8 {
                moof_sequence = read_u32(d, 4);
            }
        } else if c.kind == TRAF {
            let d = c.body()?;
            parse_traf(d, moof.moof_start, tracks, samples, next_dts, moof_sequence, senc_records, sai_records)?;
        } else if c.kind == PSSH {
            let d = copy_bytes(c.body()?);
            proof { lemma_views_push(bodies@, d); }
            bodies.push(d);
        }
        pos = c.next;
    }
    add_psshes(&bodies, moof_sequence, moof_psshes);
    Ok(())
}

/// Whether every sample is of one of the first `n` tracks.
pub open spec fn tracks_below(samples: Seq<SampleRef>, n: nat) -> bool {
    forall|i: int| 0 <= i < samples.len() ==> (#[trigger] samples[i]).track_idx < n
}

proof fn lemma_run_tracks(s: RunState, run: TrunModel, i: int, st: TrafState, shift: i64, n: nat)
    requires
        tracks_below(s.samples, n),
        st.track_idx < n,
    ensures
        tracks_below(run_from(s, run, i, st, shift).samples, n),
    decreases run.samples.len() - i,
{
    if i < run.samples.len() {
        lemma_run_tracks(run_step(s, run, i, st, shift), run, i + 1, st, shift, n);
    }
}

/// A scan that has seen a header names one of the tracks.
proof fn lemma_scan_track(b: Seq<u8>, pos: int, s: TrafScan, moof_start: u64, tracks: Seq<TrackModel>)
    requires
        tracks.len() <= usize::MAX,
        s.tfhd_seen ==> s.state.track_idx < tracks.len(),
    ensures
        ({
            let (t, r) = scan_from(b, pos, s, moof_start, tracks);
            t.tfhd_seen && r is Ok ==> t.state.track_idx < tracks.len()
        }),
    decreases b.len() - pos,
{
    if pos < b.len() {
        if let Ok(h) = header_at(b, pos) {
            let c = child_at(b, pos, h);
            let (s2, r) = scan_step(s, c, moof_start, tracks);
            if let Ok(d) = body_of(c) {
                lemma_track_index(tracks, be32(d, 4));
            }
            if r is Ok && next_pos(b, pos, h) > pos {
                lemma_scan_track(b, next_pos(b, pos, h), s2, moof_start, tracks);
            }
        }
    }
}

/// A track fragment adds samples of tracks of the movie only.
pub proof fn law_traf_tracks(f: FragModel, b: Seq<u8>, moof_start: u64, tracks: Seq<TrackModel>, sequence: u32)
    requires
        tracks.len() <= usize::MAX,
        tracks.len() <= f.next_dts.len(),
        tracks_below(f.samples, tracks.len()),
    ensures
        tracks_below(traf_of(f, b, moof_start, tracks, sequence).0.samples, tracks.len()),
        traf_of(f, b, moof_start, tracks, sequence).0.next_dts.len() == f.next_dts.len(),
{
    reveal(traf_of);
    let (s, r) = scan_from(b, 0, no_scan(), moof_start, tracks);
    if r is Ok && s.tfhd_seen {
        lemma_scan_track(b, 0, no_scan(), moof_start, tracks);
        let idx = s.state.track_idx as int;
        let n = tracks.len();
        let start = RunState {
            offset: s.state.base_data_offset,
            dts: or_default(s.state.base_media_decode_time, f.next_dts[idx]),
            samples: f.samples,
        };
        let shift = leading_media_time(tracks[idx].elst);
        let st = s.state;
        let inv = |s: RunState| tracks_below(s.samples, n);
        let step = |s: RunState, c: Child| runs_step(s, c, st, shift);
        assert forall|s: RunState, c: Child| inv(s) implies inv(#[trigger] step(s, c).0) by {
            if let Ok(d) = body_of(c) {
                if let Ok(run) = trun_of(d) {
                    let from = match run.data_offset {
                        Some(d) => wrap_u64(st.base_data_offset + d),
                        None => s.offset,
                    };
                    lemma_run_tracks(RunState { offset: from, ..s }, run, 0, st, shift, n);
                }
            }
        }
        lemma_walk_keeps(b, 0, start, step, inv);
        assert(runs_from(b, 0, start, st, shift) == walk(b, 0, start, step));
    }
}

/// A movie fragment adds samples of tracks of the movie only.
pub proof fn law_moof_tracks(
    f: FragModel,
    psshes: Seq<MoofPsshModel>,
    b: Seq<u8>,
    moof_start: u64,
    tracks: Seq<TrackModel>,
)
    requires
        tracks.len() <= usize::MAX,
        tracks.len() <= f.next_dts.len(),
        tracks_below(f.samples, tracks.len()),
    ensures
        tracks_below(moof_of(f, psshes, b, moof_start, tracks).0.samples, tracks.len()),
        moof_of(f, psshes, b, moof_start, tracks).0.next_dts.len() == f.next_dts.len(),
{
    let n = tracks.len();
    let k = f.next_dts.len();
    let inv = |s: MoofScan| tracks_below(s.frag.samples, n) && s.frag.next_dts.len() == k;
    let step = |s: MoofScan, c: Child| moof_step(s, c, moof_start, tracks);
    assert forall|s: MoofScan, c: Child| inv(s) implies inv(#[trigger] step(s, c).0) by {
        if let Ok(d) = body_of(c) {
            law_traf_tracks(s.frag, d, moof_start, tracks, s.sequence);
        }
    }
    let s0 = MoofScan { sequence: number_from(b, 0, 0), frag: f, psshes: Seq::empty() };
    lemma_walk_keeps(b, 0, s0, step, inv);
    assert(moof_from(b, 0, s0, moof_start, tracks) == walk(b, 0, s0, step));
}

/// Whether a sequence starts with another.
pub open spec fn starts_with<T>(s: Seq<T>, start: Seq<T>) -> bool {
    start.len() <= s.len() && s.subrange(0, start.len() as int) == start
}

proof fn lemma_starts_push<T>(s: Seq<T>, start: Seq<T>, x: T)
    requires
        starts_with(s, start),
    ensures
        starts_with(s.push(x), start),
{
    assert(s.push(x).subrange(0, start.len() as int) =~= s.subrange(0, start.len() as int));
}

proof fn lemma_run_keeps(s: RunState, run: TrunModel, i: int, st: TrafState, shift: i64, start: Seq<SampleRef>)
    requires
        starts_with(s.samples, start),
    ensures
        starts_with(run_from(s, run, i, st, shift).samples, start),
    decreases run.samples.len() - i,
{
    if i < run.samples.len() {
        let next = run_step(s, run, i, st, shift);
        lemma_starts_push(s.samples, start, next.samples.last());
        assert(next.samples =~= s.samples.push(next.samples.last()));
        lemma_run_keeps(next, run, i + 1, st, shift, start);
    }
}

/// Whether what fragments have added starts with what they had added before.
pub open spec fn frag_extends(f: FragModel, start: FragModel) -> bool {
    &&& starts_with(f.samples, start.samples)
    &&& starts_with(f.sencs, start.sencs)
    &&& starts_with(f.sais, start.sais)
}

proof fn lemma_traf_extends(f: FragModel, b: Seq<u8>, moof_start: u64, tracks: Seq<TrackModel>, sequence: u32, start: FragModel)
    requires
        frag_extends(f, start),
    ensures
        frag_extends(traf_of(f, b, moof_start, tracks, sequence).0, start),
{
    reveal(traf_of);
    let (s, r) = scan_from(b, 0, no_scan(), moof_start, tracks);
    if r is Ok && s.tfhd_seen {
        let idx = s.state.track_idx as int;
        let f0 = with_senc(f, s, tracks, sequence);
        if f0.sencs.len() > f.sencs.len() {
            lemma_starts_push(f.sencs, start.sencs, f0.sencs.last());
            assert(f0.sencs =~= f.sencs.push(f0.sencs.last()));
        }
        let f1 = with_sai(f0, s, sequence);
        if f1.sais.len() > f0.sais.len() {
            lemma_starts_push(f0.sais, start.sais, f1.sais.last());
            assert(f1.sais =~= f0.sais.push(f1.sais.last()));
        }
        let run0 = RunState {
            offset: s.state.base_data_offset,
            dts: or_default(s.state.base_media_decode_time, f.next_dts[idx]),
            samples: f.samples,
        };
        let shift = leading_media_time(tracks[idx].elst);
        let st = s.state;
        let inv = |s: RunState| starts_with(s.samples, start.samples);
        let step = |s: RunState, c: Child| runs_step(s, c, st, shift);
        assert forall|s: RunState, c: Child| inv(s) implies inv(#[trigger] step(s, c).0) by {
            if let Ok(d) = body_of(c) {
                if let Ok(run) = trun_of(d) {
                    let from = match run.data_offset {
                        Some(d) => wrap_u64(st.base_data_offset + d),
                        None => s.offset,
                    };
                    lemma_run_keeps(RunState { offset: from, ..s }, run, 0, st, shift, start.samples);
                }
            }
        }
        lemma_walk_keeps(b, 0, run0, step, inv);
        assert(runs_from(b, 0, run0, st, shift) == walk(b, 0, run0, step));
    }
}

/// A movie fragment takes nothing away: what was there before it stays in front, even where it fails.
pub proof fn law_moof_extends(
    f: FragModel,
    psshes: Seq<MoofPsshModel>,
    b: Seq<u8>,
    moof_start: u64,
    tracks: Seq<TrackModel>,
)
    ensures
        frag_extends(moof_of(f, psshes, b, moof_start, tracks).0, f),
{
    assert(f.samples.subrange(0, f.samples.len() as int) =~= f.samples);
    assert(f.sencs.subrange(0, f.sencs.len() as int) =~= f.sencs);
    assert(f.sais.subrange(0, f.sais.len() as int) =~= f.sais);
    let inv = |s: MoofScan| frag_extends(s.frag, f);
    let step = |s: MoofScan, c: Child| moof_step(s, c, moof_start, tracks);
    assert forall|s: MoofScan, c: Child| inv(s) implies inv(#[trigger] step(s, c).0) by {
        if let Ok(d) = body_of(c) {
            lemma_traf_extends(s.frag, d, moof_start, tracks, s.sequence, f);
        }
    }
    let s0 = MoofScan { sequence: number_from(b, 0, 0), frag: f, psshes: Seq::empty() };
    lemma_walk_keeps(b, 0, s0, step, inv);
    assert(moof_from(b, 0, s0, moof_start, tracks) == walk(b, 0, s0, step));
}

/// How long the samples of a run from the `i`th on last.
pub open spec fn run_ticks(run: TrunModel, i: int, st: TrafState) -> int
    decreases run.samples.len() - i,
{
    if i >= run.samples.len() {
        0
    } else {
        or_default(run.samples[i].duration, st.default_sample_duration) + run_ticks(run, i + 1, st)
    }
}

/// A run moves the decode time by as long as its samples last, at most to the largest that 64 bits hold.
pub proof fn law_run_advances(s: RunState, run: TrunModel, i: int, st: TrafState, shift: i64)
    requires
        0 <= i,
    ensures
        run_ticks(run, i, st) >= 0,
        run_from(s, run, i, st, shift).dts == clamp64(s.dts + run_ticks(run, i, st)),
    decreases run.samples.len() - i,
{
    if i < run.samples.len() {
        law_run_advances(run_step(s, run, i, st, shift), run, i + 1, st, shift);
    }
}

proof fn lemma_scan_time(b: Seq<u8>, pos: int, s: TrafScan, moof_start: u64, tracks: Seq<TrackModel>)
    ensures
        ({
            let (t, r) = scan_from(b, pos, s, moof_start, tracks);
            r is Ok ==> (t.state.base_media_decode_time is Some <==> (s.state.base_media_decode_time is Some
                || has_child(b, pos, TFDT)))
        }),
    decreases b.len() - pos,
{
    if pos < b.len() {
        if let Ok(h) = header_at(b, pos) {
            let (s2, r) = scan_step(s, child_at(b, pos, h), moof_start, tracks);
            if r is Ok && next_pos(b, pos, h) > pos {
                lemma_scan_time(b, next_pos(b, pos, h), s2, moof_start, tracks);
            }
        }
    }
}

/// A track fragment has a decode time of its own where one of its boxes gives it, be it before the track
/// fragment header or behind it, and only there.
pub proof fn law_decode_time_given(b: Seq<u8>, moof_start: u64, tracks: Seq<TrackModel>)
    requires
        scan_from(b, 0, no_scan(), moof_start, tracks).1 is Ok,
    ensures
        scan_from(b, 0, no_scan(), moof_start, tracks).0.state.base_media_decode_time is Some <==> has_child(b, 0, TFDT),
{
    lemma_scan_time(b, 0, no_scan(), moof_start, tracks);
}

/// A run that has samples adds the first of them at the decode time that it starts at.
proof fn lemma_run_first(s: RunState, run: TrunModel, st: TrafState, shift: i64)
    requires
        run.samples.len() > 0,
    ensures
        run_from(s, run, 0, st, shift).samples.len() > s.samples.len(),
        run_from(s, run, 0, st, shift).samples[s.samples.len() as int].dts == clamp64(s.dts - shift),
{
    let next = run_step(s, run, 0, st, shift);
    let end = run_from(next, run, 1, st, shift);
    assert(next.samples.subrange(0, next.samples.len() as int) =~= next.samples);
    lemma_run_keeps(next, run, 1, st, shift, next.samples);
    assert(end.samples.subrange(0, next.samples.len() as int)[s.samples.len() as int] == end.samples[s.samples.len() as int]);
}

/// The first sample that a track fragment adds is decoded at the time that the track fragment gives, or
/// else at the time that its track has come to; this is in the time of the media, which the edits of the
/// track shift.
pub proof fn law_traf_starts(f: FragModel, b: Seq<u8>, moof_start: u64, tracks: Seq<TrackModel>, sequence: u32)
    requires
        traf_of(f, b, moof_start, tracks, sequence).1 is Ok,
        traf_of(f, b, moof_start, tracks, sequence).0.samples.len() > f.samples.len(),
    ensures
        ({
            let st = scan_from(b, 0, no_scan(), moof_start, tracks).0.state;
            let k = st.track_idx as int;
            traf_of(f, b, moof_start, tracks, sequence).0.samples[f.samples.len() as int].dts == clamp64(
                or_default(st.base_media_decode_time, f.next_dts[k]) - leading_media_time(tracks[k].elst),
            )
        }),
{
    reveal(traf_of);
    let st = scan_from(b, 0, no_scan(), moof_start, tracks).0.state;
    let k = st.track_idx as int;
    let shift = leading_media_time(tracks[k].elst);
    let time = or_default(st.base_media_decode_time, f.next_dts[k]);
    let n = f.samples.len();
    let start = RunState { offset: st.base_data_offset, dts: time, samples: f.samples };
    let inv = |s: RunState|
        s.samples.len() >= n && (s.samples.len() == n ==> s.dts == time) && (s.samples.len() > n
            ==> s.samples[n as int].dts == clamp64(time - shift));
    let step = |s: RunState, c: Child| runs_step(s, c, st, shift);
    assert forall|s: RunState, c: Child| inv(s) implies inv(#[trigger] step(s, c).0) by {
        if let Ok(d) = body_of(c) {
            if let Ok(run) = trun_of(d) {
                let from = RunState {
                    offset: match run.data_offset {
                        Some(d) => wrap_u64(st.base_data_offset + d),
                        None => s.offset,
                    },
                    ..s
                };
                let end = run_from(from, run, 0, st, shift);
                assert(s.samples.subrange(0, s.samples.len() as int) =~= s.samples);
                lemma_run_keeps(from, run, 0, st, shift, s.samples);
                if s.samples.len() > n {
                    assert(end.samples.subrange(0, s.samples.len() as int)[n as int] == end.samples[n as int]);
                } else if run.samples.len() > 0 {
                    lemma_run_first(from, run, st, shift);
                }
            }
        }
    }
    lemma_walk_keeps(b, 0, start, step, inv);
    assert(runs_from(b, 0, start, st, shift) == walk(b, 0, start, step));
}

/// A track fragment without a decode time of its own goes on where the track fragment before it has ended:
/// its first run starts at the decode time that this one left for the track.
pub proof fn law_traf_continues(
    f: FragModel,
    first: Seq<u8>,
    second: Seq<u8>,
    moof_start: u64,
    tracks: Seq<TrackModel>,
    sequence: u32,
)
    requires
        traf_of(f, first, moof_start, tracks, sequence).1 is Ok,
        tracks.len() <= f.next_dts.len(),
        tracks.len() <= usize::MAX,
        scan_from(second, 0, no_scan(), moof_start, tracks).1 is Ok,
        ({
            let a = scan_from(first, 0, no_scan(), moof_start, tracks).0;
            let b = scan_from(second, 0, no_scan(), moof_start, tracks).0;
            b.tfhd_seen && a.state.track_idx == b.state.track_idx && b.state.base_media_decode_time is None
        }),
    ensures
        ({
            let a = scan_from(first, 0, no_scan(), moof_start, tracks).0;
            let b = scan_from(second, 0, no_scan(), moof_start, tracks).0;
            let k = a.state.track_idx as int;
            let shift = leading_media_time(tracks[k].elst);
            let f1 = traf_of(f, first, moof_start, tracks, sequence).0;
            let end = runs_from(
                first,
                0,
                RunState {
                    offset: a.state.base_data_offset,
                    dts: or_default(a.state.base_media_decode_time, f.next_dts[k]),
                    samples: f.samples,
                },
                a.state,
                shift,
            ).0;
            let start = RunState { offset: b.state.base_data_offset, dts: end.dts, samples: f1.samples };
            traf_of(f1, second, moof_start, tracks, sequence).0.samples == runs_from(
                second,
                0,
                start,
                b.state,
                shift,
            ).0.samples
        }),
{
    reveal(traf_of);
    lemma_scan_track(first, 0, no_scan(), moof_start, tracks);
}

}
