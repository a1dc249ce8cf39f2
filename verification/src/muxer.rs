//! The muxer of fragmented files.
//!
//! It keeps what is still to be written and says which bytes come next; the caller writes them.
use oxideav_core::TimeBase;
use vstd::arithmetic::div_mod::lemma_mod_multiples_vanish;
use vstd::prelude::*;
use crate::boxes::{boxed, lemma_views_push, opt_view, views, wrap_box};
use crate::bytes::{copy_bytes, push_bytes, s32, to_i32};
use crate::error::{Detail, Error, Result};
use crate::flags::SAMPLE_IS_NON_SYNC;
use crate::frag::{
    build_ftyp, build_init_moov, build_moof, build_styp, flags_for, ftyp_bytes, init_moov_bytes,
    moof_bytes, sample_flags_for, styp_bytes, Brand, BrandModel, BrandPreset, FragTrackModel,
    FragTrackState, FragmentCadence, PendingModel, PendingSample,
};
use crate::fragment::{flag_set, has_flag};
use crate::kinds::MDAT;
use crate::numbers::{
    clamp64, lemma_wrap_u64_add, length32, low32, wrap64, wrap_u64, wrapped_add, wrapped_add_u64,
};

verus! {

/// A packet to be written.
#[derive(Clone, Debug)]
pub struct MuxPacket {
    pub stream_index: u32,
    /// The unit of its times in seconds, as a fraction: what is above the line.
    pub time_num: i64,
    /// What is below the line.
    pub time_den: i64,
    pub pts: Option<i64>,
    pub dts: Option<i64>,
    pub duration: Option<i64>,
    pub keyframe: bool,
    pub data: Vec<u8>,
}

/// The model of `MuxPacket`.
pub ghost struct MuxPacketModel {
    pub stream_index: u32,
    pub time_num: i64,
    pub time_den: i64,
    pub pts: Option<i64>,
    pub dts: Option<i64>,
    pub duration: Option<i64>,
    pub keyframe: bool,
    pub data: Seq<u8>,
}

impl View for MuxPacket {
    type V = MuxPacketModel;

    open spec fn view(&self) -> MuxPacketModel {
        MuxPacketModel {
            stream_index: self.stream_index,
            time_num: self.time_num,
            time_den: self.time_den,
            pts: self.pts,
            dts: self.dts,
            duration: self.duration,
            keyframe: self.keyframe,
            data: self.data@,
        }
    }
}

/// The boxes that describe a track in the initialization segment, as bytes.
pub struct InitTrack {
    pub tkhd: Vec<u8>,
    pub mdia: Vec<u8>,
    /// How many units of time there are in a second of the track.
    pub media_time_scale: u32,
}

/// A muxer of a fragmented file.
pub struct FragmentedMuxer {
    pub tracks: Vec<FragTrackState>,
    pub brand: Brand,
    /// Whether the options of the file ask for fragments.
    pub fragmented: bool,
    /// The movie header box, as bytes.
    pub mvhd: Vec<u8>,
    pub cadence: FragmentCadence,
    /// What each segment declares, where it declares anything.
    pub styp: Option<Brand>,
    /// The number of the last fragment.
    pub sequence_number: u32,
    pub header_written: bool,
    pub trailer_written: bool,
}

/// The model of `FragmentedMuxer`.
pub ghost struct MuxModel {
    pub tracks: Seq<FragTrackModel>,
    pub brand: BrandModel,
    pub fragmented: bool,
    pub mvhd: Seq<u8>,
    pub cadence: FragmentCadence,
    pub styp: Option<BrandModel>,
    pub sequence_number: u32,
    pub header_written: bool,
    pub trailer_written: bool,
}

impl View for FragmentedMuxer {
    type V = MuxModel;

    open spec fn view(&self) -> MuxModel {
        MuxModel {
            tracks: views(self.tracks@),
            brand: self.brand@,
            fragmented: self.fragmented,
            mvhd: self.mvhd@,
            cadence: self.cadence,
            styp: opt_view(self.styp),
            sequence_number: self.sequence_number,
            header_written: self.header_written,
            trailer_written: self.trailer_written,
        }
    }
}

/// The integer nearest to `p / d`, for a positive `d`; of two that are equally near, the one farther from 0.
pub open spec fn nearest(p: int, d: int) -> int {
    if p >= 0 { (2 * p + d) / (2 * d) } else { -((2 * (-p) + d) / (2 * d)) }
}

/// A time in units of `num / den` seconds, in units of which there are `scale` in a second: the nearest
/// number, at most what 64 bits hold; 0 where `den` is 0.
#[verifier::opaque]
pub open spec fn in_media_time(v: i64, num: i64, den: i64, scale: u32) -> i64 {
    let p = v * num * scale;
    if den == 0 {
        0
    } else if den > 0 {
        clamp64(nearest(p, den as int))
    } else {
        clamp64(nearest(-p, -den))
    }
}

/// `oxideav_core::TimeBase::rescale` to a time base of one part of a second: the nearest number, ties away
/// from 0, clamped to 64 bits; 0 where the time base has nothing below the line.
#[verifier::external_body]
fn rescale_to_media_ts(v: i64, num: i64, den: i64, scale: u32) -> (r: i64)
    ensures
        r == in_media_time(v, num, den, scale),
{
    TimeBase::new(num, den).rescale(v, TimeBase::new(1, scale as i64))
}

/// A time of a packet in the timescale of its track, where there is one.
pub open spec fn media_time(v: Option<i64>, p: MuxPacketModel, scale: u32) -> Option<i64> {
    match v {
        Some(x) => Some(in_media_time(x, p.time_num, p.time_den, scale)),
        None => None,
    }
}

fn to_media_time(v: Option<i64>, p: &MuxPacket, scale: u32) -> (r: Option<i64>)
    ensures
        r == media_time(v, p@, scale),
{
    match v {
        Some(x) => Some(rescale_to_media_ts(x, p.time_num, p.time_den, scale)),
        None => None,
    }
}

/// The duration of a sample: its own, or else how long after the one before it it is shown; at least 1
/// where neither is positive.
pub open spec fn packet_duration(duration: Option<i64>, pts: Option<i64>, prev: Option<i64>) -> u32 {
    match duration {
        Some(v) => if v > 0 { low32(v as int) } else { 1 },
        None => match (prev, pts) {
            (Some(a), Some(b)) => {
                let d = wrap64(b - a);
                let low = if d < 0 { 0 } else { low32(d as int) };
                if low < 1 { 1 } else { low }
            },
            _ => 1,
        },
    }
}

/// How much later than it is decoded a sample is shown, in 32 bits.
pub open spec fn packet_offset(pts: Option<i64>, dts: Option<i64>) -> i32 {
    match (pts, dts) {
        (Some(a), Some(b)) => s32(low32(a - b)),
        _ => 0,
    }
}

/// The sample that a packet becomes in a track.
pub open spec fn pending_of(t: FragTrackModel, p: MuxPacketModel) -> PendingModel {
    let pts = media_time(p.pts, p, t.media_time_scale);
    PendingModel {
        data: p.data,
        duration: packet_duration(media_time(p.duration, p, t.media_time_scale), pts, t.prev_pts),
        flags: flags_for(p.keyframe),
        composition_time_offset: packet_offset(pts, media_time(p.dts, p, t.media_time_scale)),
    }
}

/// A track with one more packet.
pub open spec fn with_packet(t: FragTrackModel, p: MuxPacketModel) -> FragTrackModel {
    let s = pending_of(t, p);
    let pts = media_time(p.pts, p, t.media_time_scale);
    let base = match t.prev_pts {
        Some(x) => x,
        None => 0,
    };
    let l = t.locked(s.duration, s.size(), s.flags);
    FragTrackModel {
        pending: t.pending.push(s),
        first_pts: match t.first_pts {
            Some(x) => Some(x),
            None => match pts {
                Some(x) => Some(x),
                None => Some(0),
            },
        },
        prev_pts: match pts {
            Some(x) => Some(x),
            None => Some(wrap64(base + s.duration)),
        },
        cumulative_duration: wrap_u64(t.cumulative_duration + s.duration),
        packets_total: wrap_u64(t.packets_total + 1),
        ..l
    }
}

/// The low 32 bits of a number that is not negative.
fn low_bits(v: i64) -> (r: u32)
    requires
        v >= 0,
    ensures
        r == low32(v as int),
{
    (v as u64 % 0x1_0000_0000) as u32
}

fn duration_of(duration: Option<i64>, pts: Option<i64>, prev: Option<i64>) -> (r: u32)
    ensures
        r == packet_duration(duration, pts, prev),
{
    match duration {
        Some(v) => if v > 0 { low_bits(v) } else { 1 },
        None => match (prev, pts) {
            (Some(a), Some(b)) => {
                let s: i128 = b as i128 - a as i128;
                let d: i64 = if s > 0x7FFF_FFFF_FFFF_FFFF {
                    (s - 0x1_0000_0000_0000_0000) as i64
                } else if s < -0x8000_0000_0000_0000 {
                    (s + 0x1_0000_0000_0000_0000) as i64
                } else {
                    s as i64
                };
                let low: u32 = if d < 0 { 0 } else { low_bits(d) };
                if low < 1 { 1 } else { low }
            },
            _ => 1,
        },
    }
}

fn offset_of(pts: Option<i64>, dts: Option<i64>) -> (r: i32)
    ensures
        r == packet_offset(pts, dts),
{
    match (pts, dts) {
        (Some(a), Some(b)) => {
            let d: i128 = a as i128 - b as i128 + 0x2_0000_0000_0000_0000;
            proof { lemma_mod_multiples_vanish(0x2_0000_0000, a - b, 0x1_0000_0000); }
            to_i32((d as u128 % 0x1_0000_0000) as u32)
        },
        _ => 0,
    }
}

/// Puts a packet into its track.
fn add_packet(t: &mut FragTrackState, p: &MuxPacket)
    ensures
        final(t)@ == with_packet(old(t)@, p@),
{
    let pts = to_media_time(p.pts, p, t.media_time_scale);
    let dts = to_media_time(p.dts, p, t.media_time_scale);
    let duration: u32 = duration_of(to_media_time(p.duration, p, t.media_time_scale), pts, t.prev_pts);
    let flags: u32 = sample_flags_for(p.keyframe);
    let size: u32 = length32(p.data.len(), 0);
    t.lock_trex(duration, size, flags);
    let s = PendingSample {
        data: copy_bytes(p.data.as_slice()),
        duration,
        flags,
        composition_time_offset: offset_of(pts, dts),
    };
    proof { lemma_views_push(t.pending@, s); }
    t.pending.push(s);
    match pts {
        Some(x) => {
            if t.first_pts.is_none() {
                t.first_pts = Some(x);
            }
            t.prev_pts = Some(x);
        },
        None => {
            let base: i64 = match t.prev_pts {
                Some(x) => x,
                None => 0,
            };
            t.prev_pts = Some(wrapped_add(base, duration as i64));
            if t.first_pts.is_none() {
                t.first_pts = Some(0);
            }
        },
    }
    t.cumulative_duration = wrapped_add_u64(t.cumulative_duration, duration as u64);
    t.packets_total = wrapped_add_u64(t.packets_total, 1);
}

/// How long the first `n` samples last.
pub open spec fn ticks(p: Seq<PendingModel>, n: int) -> int
    decreases n,
{
    if n <= 0 { 0 } else { ticks(p, n - 1) + p[n - 1].duration }
}

/// Adds how long the samples last.
fn add_ticks(p: &Vec<PendingSample>, start: u64) -> (r: u64)
    ensures
        r == wrap_u64(start + ticks(views(p@), p@.len() as int)),
{
    let ghost rows = views(p@);
    let mut r: u64 = start;
    let mut i: usize = 0;
    while i < p.len()
        invariant
            i <= p@.len(),
            rows == views(p@),
            r == wrap_u64(start + ticks(rows, i as int)),
        decreases p@.len() - i,
    {
        assert(rows[i as int] == p@[i as int]@);
        proof { lemma_wrap_u64_add(start + ticks(rows, i as int), rows[i as int].duration as int); }
        r = wrapped_add_u64(r, p[i].duration as u64);
        i += 1;
    }
    r
}

/// Whether the cadence calls for a fragment once a packet has been put into a track. How long a fragment
/// lasts is told by the first track; keyframes and numbers of packets count in every track.
pub open spec fn flush_due(m: MuxModel, track: int, keyframe: bool) -> bool {
    let first = m.tracks[0].pending;
    let p = m.tracks[track].pending;
    match m.cadence {
        FragmentCadence::EveryTicks(n) => first.len() > 0 && wrap_u64(ticks(first, first.len() as int)) >= n,
        FragmentCadence::EveryKeyframe => keyframe && p.len() >= 2,
        FragmentCadence::EveryNPackets(n) => n != 0 && low32(p.len() as int) >= n,
        FragmentCadence::AtEnd => false,
    }
}

/// The sample that is held back for the next fragment: the last of the `k`th track, where fragments
/// start at keyframes and it is one.
pub open spec fn held_back(m: MuxModel, k: int) -> Option<PendingModel> {
    let p = m.tracks[k].pending;
    if m.cadence == FragmentCadence::EveryKeyframe && p.len() > 0 && !flag_set(p.last().flags, SAMPLE_IS_NON_SYNC) {
        Some(p.last())
    } else {
        None
    }
}

/// The difference of two numbers, at least 0.
pub open spec fn floor_sub(a: u64, b: u32) -> u64 {
    if a < b { 0 } else { (a - b) as u64 }
}

/// The tracks without the sample of the `k`th that is held back.
pub open spec fn fragment_tracks(m: MuxModel, k: int) -> Seq<FragTrackModel> {
    match held_back(m, k) {
        Some(s) => m.tracks.update(
            k,
            FragTrackModel {
                pending: m.tracks[k].pending.drop_last(),
                cumulative_duration: floor_sub(m.tracks[k].cumulative_duration, s.duration),
                ..m.tracks[k]
            },
        ),
        None => m.tracks,
    }
}

/// A track with a sample that was held back.
pub open spec fn with_held(t: FragTrackModel, s: PendingModel) -> FragTrackModel {
    FragTrackModel {
        pending: t.pending.push(s),
        cumulative_duration: wrap_u64(t.cumulative_duration + s.duration),
        ..t
    }
}

/// The tracks with the sample of the `k`th that was held back.
pub open spec fn restored(tracks: Seq<FragTrackModel>, k: int, held: Option<PendingModel>) -> Seq<FragTrackModel> {
    match held {
        Some(s) => tracks.update(k, with_held(tracks[k], s)),
        None => tracks,
    }
}

/// Whether no track has a sample.
pub open spec fn nothing_pending(tracks: Seq<FragTrackModel>) -> bool {
    forall|i: int| 0 <= i < tracks.len() ==> (#[trigger] tracks[i]).pending.len() == 0
}

/// The data of samples from the `j`th on, behind `acc`.
pub open spec fn samples_data(acc: Seq<u8>, p: Seq<PendingModel>, j: int) -> Seq<u8>
    decreases p.len() - j,
{
    if j >= p.len() { acc } else { samples_data(acc + p[j].data, p, j + 1) }
}

/// The data of the samples of the tracks from the `i`th on, behind `acc`.
pub open spec fn tracks_data(acc: Seq<u8>, tracks: Seq<FragTrackModel>, i: int) -> Seq<u8>
    decreases tracks.len() - i,
{
    if i >= tracks.len() { acc } else { tracks_data(samples_data(acc, tracks[i].pending, 0), tracks, i + 1) }
}

/// A track whose samples have been written.
pub open spec fn drained(t: FragTrackModel) -> FragTrackModel {
    FragTrackModel {
        next_bmdt: wrap_u64(t.next_bmdt + ticks(t.pending, t.pending.len() as int)),
        pending: Seq::empty(),
        ..t
    }
}

/// The tracks, whose samples have been written.
pub open spec fn all_drained(tracks: Seq<FragTrackModel>) -> Seq<FragTrackModel> {
    Seq::new(tracks.len(), |i: int| drained(tracks[i]))
}

/// The number behind `n`, around the end of its range.
pub open spec fn next_number(n: u32) -> u32 {
    low32(n + 1)
}

/// What a segment declares, where it declares anything.
pub open spec fn segment_type(m: MuxModel) -> Seq<u8> {
    match m.styp {
        Some(b) => styp_bytes(b),
        None => Seq::empty(),
    }
}

/// The bytes of a fragment of the given tracks: what the segment declares, the movie fragment and the data.
pub open spec fn fragment_bytes(m: MuxModel, tracks: Seq<FragTrackModel>) -> Seq<u8> {
    segment_type(m) + moof_bytes(next_number(m.sequence_number), tracks) + boxed(
        MDAT,
        tracks_data(Seq::empty(), tracks, 0),
    )
}

/// What writing a fragment comes to, where the `k`th track may hold a sample back: the muxer behind it and
/// the bytes. Where there is nothing to write there are none.
pub open spec fn flush_of(m: MuxModel, k: int) -> (MuxModel, Seq<u8>) {
    let held = held_back(m, k);
    let tracks = fragment_tracks(m, k);
    if nothing_pending(tracks) {
        (MuxModel { tracks: restored(tracks, k, held), ..m }, Seq::empty())
    } else {
        (
            MuxModel {
                tracks: restored(all_drained(tracks), k, held),
                sequence_number: next_number(m.sequence_number),
                ..m
            },
            fragment_bytes(m, tracks),
        )
    }
}

/// What writing a packet comes to.
pub open spec fn packet_of(m: MuxModel, p: MuxPacketModel) -> (MuxModel, Result<Seq<u8>>) {
    let i = p.stream_index as int;
    if !m.header_written {
        (m, Err(Error::Other("mp4 muxer: write_header not called")))
    } else if i >= m.tracks.len() {
        (m, Err(Error::InvalidData(Detail::UnknownStream(p.stream_index))))
    } else {
        let m1 = MuxModel { tracks: m.tracks.update(i, with_packet(m.tracks[i], p)), ..m };
        if flush_due(m1, i, p.keyframe) {
            let (m2, b) = flush_of(m1, i);
            (m2, Ok(b))
        } else {
            (m1, Ok(Seq::empty()))
        }
    }
}

/// What writing the header comes to: the file type and the movie, once.
pub open spec fn header_of(m: MuxModel) -> (MuxModel, Result<Seq<u8>>) {
    if m.header_written {
        (m, Err(Error::Other("mp4 muxer: write_header called twice")))
    } else {
        (
            MuxModel { header_written: true, ..m },
            Ok(ftyp_bytes(m.brand) + init_moov_bytes(m.mvhd, m.tracks)),
        )
    }
}

/// What writing the trailer comes to: a last fragment, once.
pub open spec fn trailer_of(m: MuxModel) -> (MuxModel, Result<Seq<u8>>) {
    if m.trailer_written {
        (m, Ok(Seq::empty()))
    } else if !m.header_written {
        (m, Err(Error::Other("mp4 muxer: write_trailer before write_header")))
    } else if nothing_pending(m.tracks) {
        (MuxModel { trailer_written: true, ..m }, Ok(Seq::empty()))
    } else {
        let (m1, b) = flush_of(m, 0);
        (MuxModel { trailer_written: true, ..m1 }, Ok(b))
    }
}

/// A result of bytes, with the bytes taken by their view.
pub open spec fn bytes_seen(r: Result<Vec<u8>>) -> Result<Seq<u8>> {
    match r {
        Ok(v) => Ok(v@),
        Err(e) => Err(e),
    }
}

/// The tracks of a muxer that starts.
pub open spec fn first_tracks(init: Seq<InitTrack>) -> Seq<FragTrackModel> {
    Seq::new(
        init.len(),
        |i: int| FragTrackModel::blank(low32(i + 1), init[i].tkhd@, init[i].mdia@, init[i].media_time_scale),
    )
}

/// Opens a muxer for streams that the given boxes describe. Tracks are numbered from 1.
pub fn open_fragmented(
    init: Vec<InitTrack>,
    mvhd: Vec<u8>,
    brand: Brand,
    fragmented: bool,
    cadence: FragmentCadence,
    styp: Option<Brand>,
) -> (r: Result<FragmentedMuxer>)
    ensures
        init@.len() == 0 ==> (r matches Err(e) && e == Error::invalid("mp4 muxer: need at least one stream")),
        init@.len() > 0 ==> (r matches Ok(m) && m@ == (MuxModel {
            tracks: first_tracks(init@),
            brand: brand@,
            fragmented,
            mvhd: mvhd@,
            cadence,
            styp: opt_view(styp),
            sequence_number: 0,
            header_written: false,
            trailer_written: false,
        })),
{
    if init.len() == 0 {
        return Err(Error::invalid("mp4 muxer: need at least one stream"));
    }
    let mut tracks: Vec<FragTrackState> = Vec::new();
    let mut i: usize = 0;
    while i < init.len()
        invariant
            i <= init@.len(),
            tracks@.len() == i,
            forall|k: int| 0 <= k < i ==> (#[trigger] tracks@[k])@ == first_tracks(init@)[k],
        decreases init@.len() - i,
    {
        let t = FragTrackState::new(
            length32(i, 1),
            copy_bytes(init[i].tkhd.as_slice()),
            copy_bytes(init[i].mdia.as_slice()),
            init[i].media_time_scale,
        );
        tracks.push(t);
        i += 1;
    }
    proof { assert(views(tracks@) =~= first_tracks(init@)); }
    Ok(
        FragmentedMuxer {
            tracks,
            brand,
            fragmented,
            mvhd,
            cadence,
            styp,
            sequence_number: 0,
            header_written: false,
            trailer_written: false,
        },
    )
}

/// Whether no track has a sample.
fn none_pending(tracks: &Vec<FragTrackState>) -> (r: bool)
    ensures
        r == nothing_pending(views(tracks@)),
{
    let ghost rows = views(tracks@);
    let mut i: usize = 0;
    while i < tracks.len()
        invariant
            i <= tracks@.len(),
            rows == views(tracks@),
            forall|k: int| 0 <= k < i ==> (#[trigger] rows[k]).pending.len() == 0,
        decreases tracks@.len() - i,
    {
        assert(rows[i as int] == tracks@[i as int]@);
        if tracks[i].pending.len() != 0 {
            assert(rows[i as int].pending.len() != 0);
            return false;
        }
        i += 1;
    }
    true
}

fn push_samples(out: &mut Vec<u8>, p: &Vec<PendingSample>)
    ensures
        final(out)@ == samples_data(old(out)@, views(p@), 0),
{
    let ghost rows = views(p@);
    let mut j: usize = 0;
    while j < p.len()
        invariant
            j <= p@.len(),
            rows == views(p@),
            samples_data(old(out)@, rows, 0) == samples_data(out@, rows, j as int),
        decreases p@.len() - j,
    {
        assert(rows[j as int] == p@[j as int]@);
        push_bytes(out, p[j].data.as_slice());
        j += 1;
    }
}

/// The data of the samples of all tracks.
fn collect_data(tracks: &Vec<FragTrackState>) -> (r: Vec<u8>)
    ensures
        r@ == tracks_data(Seq::empty(), views(tracks@), 0),
{
    let ghost rows = views(tracks@);
    let mut out: Vec<u8> = Vec::new();
    proof { assert(out@ =~= Seq::<u8>::empty()); }
    let mut i: usize = 0;
    while i < tracks.len()
        invariant
            i <= tracks@.len(),
            rows == views(tracks@),
            tracks_data(Seq::empty(), rows, 0) == tracks_data(out@, rows, i as int),
        decreases tracks@.len() - i,
    {
        assert(rows[i as int] == tracks@[i as int]@);
        push_samples(&mut out, &tracks[i].pending);
        i += 1;
    }
    out
}

/// Takes the samples out of all tracks, and moves their decode times behind them.
fn drain_all(tracks: &mut Vec<FragTrackState>)
    ensures
        views(final(tracks)@) == all_drained(views(old(tracks)@)),
{
    let ghost rows = views(tracks@);
    let mut i: usize = 0;
    while i < tracks.len()
        invariant
            i <= tracks@.len(),
            rows == views(old(tracks)@),
            tracks@.len() == rows.len(),
            forall|k: int| 0 <= k < i ==> (#[trigger] views(tracks@)[k]) == drained(rows[k]),
            forall|k: int| i <= k < rows.len() ==> (#[trigger] views(tracks@)[k]) == rows[k],
        decreases tracks@.len() - i,
    {
        let ghost before = views(tracks@);
        assert(before[i as int] == rows[i as int]);
        let t = &mut tracks[i];
        t.next_bmdt = add_ticks(&t.pending, t.next_bmdt);
        t.pending = Vec::new();
        proof {
            assert(t@.pending =~= Seq::empty());
            assert(t@ == drained(rows[i as int]));
        }
        i += 1;
        proof {
            assert forall|k: int| 0 <= k < i implies (#[trigger] views(tracks@)[k]) == drained(rows[k]) by {
                if k < i - 1 {
                    assert(views(tracks@)[k] == before[k]);
                }
            }
            assert forall|k: int| i <= k < rows.len() implies (#[trigger] views(tracks@)[k]) == rows[k] by {
                assert(views(tracks@)[k] == before[k]);
            }
        }
    }
    proof { assert(views(tracks@) =~= all_drained(rows)); }
}

impl FragmentedMuxer {
    /// The name of the format.
    pub fn format_name(&self) -> (r: &'static str)
        ensures
            r@ == (if self@.brand.preset == BrandPreset::Ismv && self@.fragmented {
                "ismv"@
            } else if self@.brand.preset == BrandPreset::Mov {
                "mov"@
            } else {
                "mp4"@
            }),
    {
        if self.brand.preset == BrandPreset::Ismv && self.fragmented {
            "ismv"
        } else if self.brand.preset == BrandPreset::Mov {
            "mov"
        } else {
            "mp4"
        }
    }

    /// Gives the initialization segment.
    pub fn write_header(&mut self) -> (r: Result<Vec<u8>>)
        ensures
            (final(self)@, bytes_seen(r)) == header_of(old(self)@),
    {
        if self.header_written {
            return Err(Error::Other("mp4 muxer: write_header called twice"));
        }
        let mut out: Vec<u8> = build_ftyp(&self.brand);
        push_bytes(&mut out, build_init_moov(self.mvhd.as_slice(), &self.tracks).as_slice());
        self.header_written = true;
        Ok(out)
    }

    /// Whether the cadence calls for a fragment.
    pub fn should_flush(&self, current_track_idx: usize, is_keyframe: bool) -> (r: bool)
        requires
            current_track_idx < self@.tracks.len(),
        ensures
            r == flush_due(self@, current_track_idx as int, is_keyframe),
    {
        let first = &self.tracks[0].pending;
        let p = &self.tracks[current_track_idx].pending;
        assert(self@.tracks[0].pending == views(first@));
        assert(self@.tracks[current_track_idx as int].pending == views(p@));
        match self.cadence {
            FragmentCadence::EveryTicks(n) => first.len() > 0 && add_ticks(first, 0) >= n,
            FragmentCadence::EveryKeyframe => is_keyframe && p.len() >= 2,
            FragmentCadence::EveryNPackets(n) => n != 0 && length32(p.len(), 0) >= n,
            FragmentCadence::AtEnd => false,
        }
    }

    /// Takes out the sample of the `k`th track that is held back for the next fragment.
    fn hold_back(&mut self, k: usize) -> (r: Option<PendingSample>)
        requires
            k < old(self)@.tracks.len(),
        ensures
            opt_view(r) == held_back(old(self)@, k as int),
            final(self)@ == (MuxModel { tracks: fragment_tracks(old(self)@, k as int), ..old(self)@ }),
    {
        let ghost rows = views(self.tracks@);
        if self.cadence == FragmentCadence::EveryKeyframe {
            let n: usize = self.tracks[k].pending.len();
            assert(rows[k as int].pending == views(self.tracks@[k as int].pending@));
            if n > 0 {
                let flags: u32 = self.tracks[k].pending[n - 1].flags;
                assert(rows[k as int].pending.last().flags == flags);
                if !has_flag(flags, SAMPLE_IS_NON_SYNC) {
                    let t = &mut self.tracks[k];
                    let ghost all = t.pending@;
                    let last = t.pending.pop();
                    if let Some(s) = last {
                        t.cumulative_duration = if t.cumulative_duration < s.duration as u64 {
                            0
                        } else {
                            t.cumulative_duration - s.duration as u64
                        };
                        proof {
                            assert(views(t.pending@) =~= views(all).drop_last());
                            assert(views(self.tracks@) =~= fragment_tracks(old(self)@, k as int));
                        }
                        return Some(s);
                    }
                }
            }
        }
        None
    }

    /// Puts back a sample of the `k`th track that was held back.
    fn restore(&mut self, k: usize, held: Option<PendingSample>)
        requires
            k < old(self)@.tracks.len(),
        ensures
            final(self)@ == (MuxModel { tracks: restored(old(self)@.tracks, k as int, opt_view(held)), ..old(self)@ }),
    {
        if let Some(s) = held {
            let t = &mut self.tracks[k];
            t.cumulative_duration = wrapped_add_u64(t.cumulative_duration, s.duration as u64);
            proof { lemma_views_push(t.pending@, s); }
            t.pending.push(s);
            proof { assert(views(self.tracks@) =~= restored(old(self)@.tracks, k as int, opt_view(held))); }
        }
    }

    /// Gives the next fragment. Where fragments start at keyframes, one that was just put into the given
    /// track waits for the fragment behind it.
    pub fn flush_fragment(&mut self, current_track_idx: usize) -> (r: Vec<u8>)
        requires
            current_track_idx < old(self)@.tracks.len(),
        ensures
            (final(self)@, r@) == flush_of(old(self)@, current_track_idx as int),
    {
        let ghost m = self@;
        let held = self.hold_back(current_track_idx);
        let ghost tracks = self@.tracks;
        if none_pending(&self.tracks) {
            self.restore(current_track_idx, held);
            let out: Vec<u8> = Vec::new();
            proof { assert(out@ =~= Seq::<u8>::empty()); }
            return out;
        }
        let mut out: Vec<u8> = Vec::new();
        proof { assert(out@ =~= Seq::<u8>::empty()); }
        if let Some(b) = &self.styp {
            out = build_styp(b);
        }
        assert(out@ == segment_type(m));
        self.sequence_number = length32(self.sequence_number as usize, 1);
        push_bytes(&mut out, build_moof(self.sequence_number, &self.tracks).as_slice());
        let data = collect_data(&self.tracks);
        push_bytes(&mut out, wrap_box(MDAT, data.as_slice()).as_slice());
        drain_all(&mut self.tracks);
        self.restore(current_track_idx, held);
        out
    }

    /// Takes a packet, and gives the fragment that it completes, or nothing.
    pub fn write_packet(&mut self, packet: &MuxPacket) -> (r: Result<Vec<u8>>)
        ensures
            (final(self)@, bytes_seen(r)) == packet_of(old(self)@, packet@),
            final(self)@.tracks.len() == old(self)@.tracks.len(),
    {
        if !self.header_written {
            return Err(Error::Other("mp4 muxer: write_header not called"));
        }
        let idx: usize = packet.stream_index as usize;
        if idx >= self.tracks.len() {
            return Err(Error::InvalidData(Detail::UnknownStream(packet.stream_index)));
        }
        let ghost m = self@;
        assert(self.tracks@[idx as int]@ == m.tracks[idx as int]);
        add_packet(&mut self.tracks[idx], packet);
        proof {
            assert(views(self.tracks@) =~= m.tracks.update(idx as int, with_packet(m.tracks[idx as int], packet@)));
        }
        if self.should_flush(idx, packet.keyframe) {
            return Ok(self.flush_fragment(idx));
        }
        let out: Vec<u8> = Vec::new();
        proof { assert(out@ =~= Seq::<u8>::empty()); }
        Ok(out)
    }

    /// Gives what is left to be written.
    pub fn write_trailer(&mut self) -> (r: Result<Vec<u8>>)
        ensures
            (final(self)@, bytes_seen(r)) == trailer_of(old(self)@),
            final(self)@.tracks.len() == old(self)@.tracks.len(),
    {
        let mut out: Vec<u8> = Vec::new();
        proof { assert(out@ =~= Seq::<u8>::empty()); }
        if self.trailer_written {
            return Ok(out);
        }
        if !self.header_written {
            return Err(Error::Other("mp4 muxer: write_trailer before write_header"));
        }
        if !none_pending(&self.tracks) {
            assert(self@.tracks.len() > 0);
            out = self.flush_fragment(0);
        }
        self.trailer_written = true;
        Ok(out)
    }
}

/// Writing a fragment loses no sample: what waited in a track is what the fragment has of it, and then
/// what waits still. The decode time of a track moves by as long as what was written lasts.
pub proof fn law_flush_conserves(m: MuxModel, k: int, i: int)
    requires
        0 <= k < m.tracks.len(),
        0 <= i < m.tracks.len(),
    ensures
        ({
            let m2 = flush_of(m, k).0;
            let now = fragment_tracks(m, k);
            let written = now[i].pending;
            &&& m2.tracks.len() == m.tracks.len()
            &&& nothing_pending(now) ==> m2.tracks[i].pending == m.tracks[i].pending && m2.tracks[i].next_bmdt
                == m.tracks[i].next_bmdt
            &&& !nothing_pending(now) ==> written + m2.tracks[i].pending == m.tracks[i].pending
                && m2.tracks[i].next_bmdt == wrap_u64(m.tracks[i].next_bmdt + ticks(written, written.len() as int))
            &&& m2.tracks[i].track_id == m.tracks[i].track_id
        }),
{
    let p = m.tracks[i].pending;
    let m2 = flush_of(m, k).0;
    let written = fragment_tracks(m, k)[i].pending;
    if let Some(s) = held_back(m, k) {
        if i == k {
            assert(p.drop_last().push(s) =~= p);
            assert(Seq::<PendingModel>::empty().push(s) =~= seq![s]);
            assert(p.drop_last() + seq![s] =~= p);
        } else {
            assert(p + Seq::<PendingModel>::empty() =~= p);
        }
    } else {
        assert(p + Seq::<PendingModel>::empty() =~= p);
    }
    if nothing_pending(fragment_tracks(m, k)) {
        assert(written.len() == 0);
        if held_back(m, k) is None || i != k {
            assert(written =~= p);
        } else {
            assert(m2.tracks[k].pending =~= p);
        }
    }
}

/// Where fragments start at keyframes, the keyframe that completes a fragment waits for the next one, and
/// every other sample is written, be it of its track or of another.
pub proof fn law_keyframe_starts_fragment(m: MuxModel, p: MuxPacketModel, i: int)
    requires
        m.cadence == FragmentCadence::EveryKeyframe,
        m.header_written,
        p.stream_index < m.tracks.len(),
        m.tracks[p.stream_index as int].pending.len() > 0,
        p.keyframe,
        0 <= i < m.tracks.len(),
    ensures
        ({
            let k = p.stream_index as int;
            let m2 = packet_of(m, p).0;
            &&& m2.tracks[i].pending == (if i == k {
                seq![pending_of(m.tracks[k], p)]
            } else {
                Seq::empty()
            })
            &&& m2.sequence_number == next_number(m.sequence_number)
        }),
{
    let k = p.stream_index as int;
    let s = pending_of(m.tracks[k], p);
    let t = with_packet(m.tracks[k], p);
    let m1 = MuxModel { tracks: m.tracks.update(k, t), ..m };
    assert(t.pending == m.tracks[k].pending.push(s));
    assert(flush_due(m1, k, true));
    assert(!flag_set(s.flags, SAMPLE_IS_NON_SYNC)) by {
        assert(0x0200_0000int / 0x0001_0000int % 2 == 0);
    }
    assert(held_back(m1, k) == Some(s));
    assert(t.pending.drop_last() =~= m.tracks[k].pending);
    assert(fragment_tracks(m1, k)[k].pending.len() > 0);
    assert(!nothing_pending(fragment_tracks(m1, k)));
    assert(Seq::<PendingModel>::empty().push(s) =~= seq![s]);
}

/// A fragment that holds nothing back takes all that waits.
proof fn lemma_flush_drains(m: MuxModel, k: int)
    requires
        0 <= k < m.tracks.len(),
        m.tracks[k].pending.len() > 0,
        held_back(m, k) is None,
    ensures
        flush_of(m, k).0.tracks.len() == m.tracks.len(),
        nothing_pending(flush_of(m, k).0.tracks),
{
    assert(fragment_tracks(m, k) == m.tracks);
    assert(!nothing_pending(m.tracks));
    assert(flush_of(m, k).0.tracks == all_drained(m.tracks));
}

/// Where fragments have a number of packets and one has been put into the `k`th track, fewer wait in the
/// `i`th track behind the fragment that is due, if one is.
proof fn lemma_cadence(m: MuxModel, k: int, keyframe: bool, n: u32, i: int)
    requires
        m.cadence == FragmentCadence::EveryNPackets(n),
        n > 0,
        0 <= k < m.tracks.len(),
        0 <= i < m.tracks.len(),
        m.tracks[k].pending.len() > 0,
        m.tracks[i].pending.len() < n || (i == k && m.tracks[i].pending.len() == n),
    ensures
        flush_due(m, k, keyframe) ==> flush_of(m, k).0.tracks.len() == m.tracks.len(),
        flush_due(m, k, keyframe) ==> flush_of(m, k).0.tracks[i].pending.len() < n,
        !flush_due(m, k, keyframe) ==> m.tracks[i].pending.len() < n,
{
    if flush_due(m, k, keyframe) {
        lemma_flush_drains(m, k);
    } else if i == k {
        assert(low32(n as int) == n);
    }
}

/// Where fragments have a number of packets, fewer than that wait in every track behind every packet.
pub proof fn law_packets_cadence(m: MuxModel, p: MuxPacketModel, n: u32, i: int)
    requires
        m.cadence == FragmentCadence::EveryNPackets(n),
        n > 0,
        0 <= i < m.tracks.len(),
        m.tracks[i].pending.len() < n,
    ensures
        packet_of(m, p).0.tracks.len() == m.tracks.len(),
        packet_of(m, p).0.tracks[i].pending.len() < n,
{
    let k = p.stream_index as int;
    if m.header_written && k < m.tracks.len() {
        let m1 = MuxModel { tracks: m.tracks.update(k, with_packet(m.tracks[k], p)), ..m };
        assert(m1.tracks[k].pending.len() == m.tracks[k].pending.len() + 1);
        lemma_cadence(m1, k, p.keyframe, n, i);
    }
}

/// A packet that is taken adds one sample to its track, be it in a fragment or waiting; the others keep
/// theirs.
pub proof fn law_packet_adds_sample(m: MuxModel, p: MuxPacketModel, i: int)
    requires
        m.header_written,
        p.stream_index < m.tracks.len(),
        0 <= i < m.tracks.len(),
    ensures
        ({
            let k = p.stream_index as int;
            let m1 = MuxModel { tracks: m.tracks.update(k, with_packet(m.tracks[k], p)), ..m };
            let m2 = packet_of(m, p).0;
            let had = m.tracks[i].pending;
            let has = if i == k { had.push(pending_of(m.tracks[i], p)) } else { had };
            &&& m1.tracks[i].pending == has
            &&& m2.tracks[i].pending == has || fragment_tracks(m1, k)[i].pending + m2.tracks[i].pending == has
        }),
{
    let k = p.stream_index as int;
    let m1 = MuxModel { tracks: m.tracks.update(k, with_packet(m.tracks[k], p)), ..m };
    law_flush_conserves(m1, k, i);
}

/// What waits behind the trailer: where fragments start at keyframes, a keyframe that is the last sample of
/// the first track, which is held back for a fragment that does not come; else nothing.
pub proof fn law_trailer_leaves(m: MuxModel, i: int)
    requires
        m.header_written,
        !m.trailer_written,
        0 <= i < m.tracks.len(),
    ensures
        trailer_of(m).1 is Ok,
        trailer_of(m).0.tracks.len() == m.tracks.len(),
        trailer_of(m).0.tracks[i].pending == (match held_back(m, 0) {
            Some(s) if i == 0 => seq![s],
            _ => Seq::empty(),
        }),
{
    if nothing_pending(m.tracks) {
        assert(m.tracks[i].pending.len() == 0);
        assert(m.tracks[0].pending.len() == 0);
        assert(m.tracks[i].pending =~= Seq::empty());
    } else {
        law_flush_conserves(m, 0, i);
        let now = fragment_tracks(m, 0);
        if nothing_pending(now) {
            assert(now[i].pending.len() == 0);
        }
        if let Some(s) = held_back(m, 0) {
            assert(Seq::<PendingModel>::empty().push(s) =~= seq![s]);
            if nothing_pending(now) && i == 0 {
                assert(m.tracks[0].pending =~= seq![s]);
            }
        }
        assert(nothing_pending(now) && i != 0 ==> m.tracks[i].pending =~= Seq::empty());
    }
}

/// Behind the trailer no sample waits: all have been written. Where fragments start at keyframes, a keyframe
/// that is the last sample of the first track is held back for a fragment that does not come.
pub proof fn law_trailer_writes_all(m: MuxModel)
    requires
        m.header_written,
        !m.trailer_written,
        m.tracks.len() > 0,
        held_back(m, 0) is None,
    ensures
        trailer_of(m).1 is Ok,
        nothing_pending(trailer_of(m).0.tracks),
        fragment_tracks(m, 0) == m.tracks,
{
    if !nothing_pending(m.tracks) {
        let t = trailer_of(m).0.tracks;
        assert forall|i: int| 0 <= i < t.len() implies (#[trigger] t[i]).pending.len() == 0 by {
            assert(t[i] == drained(m.tracks[i]));
        }
    }
}

}
