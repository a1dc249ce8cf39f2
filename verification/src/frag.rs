//! Writing fragmented files: an initialization segment, then movie fragments.
//!
//! Samples wait in their tracks until the cadence calls for a fragment. A fragment has one run of
//! samples for each track that has any, and the data of all of them behind it.
use vstd::arithmetic::div_mod::lemma_mod_multiples_vanish;
use vstd::prelude::*;
use crate::boxes::{boxed, views, wrap_box};
use crate::bytes::{
    enc24, enc32, enc64, of_i32, push_bytes, push_code, push_u24, push_u32, push_u64, s32, to_i32,
    u32_of,
};
use crate::flags::SAMPLE_IS_NON_SYNC;
use crate::fragment::{
    TFHD_DEFAULT_BASE_IS_MOOF, TFHD_DEFAULT_SAMPLE_DURATION_PRESENT, TFHD_DEFAULT_SAMPLE_FLAGS_PRESENT,
    TFHD_DEFAULT_SAMPLE_SIZE_PRESENT, TRUN_DATA_OFFSET_PRESENT, TRUN_FIRST_SAMPLE_FLAGS_PRESENT,
    TRUN_SAMPLE_COMPOSITION_TIME_OFFSETS_PRESENT, TRUN_SAMPLE_DURATION_PRESENT,
    TRUN_SAMPLE_FLAGS_PRESENT, TRUN_SAMPLE_SIZE_PRESENT,
};
use crate::kinds::{FTYP, MFHD, MOOF, MOOV, MVEX, STYP, TFDT, TFHD, TRAF, TRAK, TREX, TRUN};
use crate::numbers::{lemma_wrap_u64_add, length32, low32, wrap_u64, wrapped_add_u64};

verus! {

/// Set in the flags word of a sample that depends on no other.
pub const SAMPLE_DEPENDS_ON_NONE: u32 = 0x0200_0000;

/// How many units of time there are in a second of a movie.
pub const MOVIE_TIMESCALE: u32 = 1000;

/// A sample that waits for its fragment.
#[derive(Clone, Debug)]
pub struct PendingSample {
    pub data: Vec<u8>,
    pub duration: u32,
    pub flags: u32,
    pub composition_time_offset: i32,
}

/// The model of `PendingSample`.
pub ghost struct PendingModel {
    pub data: Seq<u8>,
    pub duration: u32,
    pub flags: u32,
    pub composition_time_offset: i32,
}

impl View for PendingSample {
    type V = PendingModel;

    open spec fn view(&self) -> PendingModel {
        PendingModel {
            data: self.data@,
            duration: self.duration,
            flags: self.flags,
            composition_time_offset: self.composition_time_offset,
        }
    }
}

impl PendingModel {
    /// The size of the sample, in 32 bits.
    pub open spec fn size(self) -> u32 {
        low32(self.data.len() as int)
    }
}

/// A track that is written.
pub struct FragTrackState {
    pub track_id: u32,
    /// Its track header box, as bytes.
    pub tkhd: Vec<u8>,
    /// Its media box, as bytes.
    pub mdia: Vec<u8>,
    /// How many units of time there are in a second of it.
    pub media_time_scale: u32,
    pub trex_default_sample_duration: u32,
    pub trex_default_sample_size: u32,
    pub trex_default_sample_flags: u32,
    /// Whether the defaults have been taken from a first sample.
    pub trex_locked: bool,
    /// The samples of the next fragment.
    pub pending: Vec<PendingSample>,
    /// When the first sample of the next fragment is decoded.
    pub next_bmdt: u64,
    pub packets_total: u64,
    pub first_pts: Option<i64>,
    pub prev_pts: Option<i64>,
    pub cumulative_duration: u64,
}

/// The model of `FragTrackState`.
pub ghost struct FragTrackModel {
    pub track_id: u32,
    pub tkhd: Seq<u8>,
    pub mdia: Seq<u8>,
    pub media_time_scale: u32,
    pub trex_default_sample_duration: u32,
    pub trex_default_sample_size: u32,
    pub trex_default_sample_flags: u32,
    pub trex_locked: bool,
    pub pending: Seq<PendingModel>,
    pub next_bmdt: u64,
    pub packets_total: u64,
    pub first_pts: Option<i64>,
    pub prev_pts: Option<i64>,
    pub cumulative_duration: u64,
}

impl View for FragTrackState {
    type V = FragTrackModel;

    open spec fn view(&self) -> FragTrackModel {
        FragTrackModel {
            track_id: self.track_id,
            tkhd: self.tkhd@,
            mdia: self.mdia@,
            media_time_scale: self.media_time_scale,
            trex_default_sample_duration: self.trex_default_sample_duration,
            trex_default_sample_size: self.trex_default_sample_size,
            trex_default_sample_flags: self.trex_default_sample_flags,
            trex_locked: self.trex_locked,
            pending: views(self.pending@),
            next_bmdt: self.next_bmdt,
            packets_total: self.packets_total,
            first_pts: self.first_pts,
            prev_pts: self.prev_pts,
            cumulative_duration: self.cumulative_duration,
        }
    }
}

impl FragTrackModel {
    /// A track of which nothing has been written.
    pub open spec fn blank(track_id: u32, tkhd: Seq<u8>, mdia: Seq<u8>, media_time_scale: u32) -> FragTrackModel {
        FragTrackModel {
            track_id,
            tkhd,
            mdia,
            media_time_scale,
            trex_default_sample_duration: 0,
            trex_default_sample_size: 0,
            trex_default_sample_flags: 0,
            trex_locked: false,
            pending: Seq::empty(),
            next_bmdt: 0,
            packets_total: 0,
            first_pts: None,
            prev_pts: None,
            cumulative_duration: 0,
        }
    }

    /// The track with defaults from its first sample; later ones change nothing.
    pub open spec fn locked(self, duration: u32, size: u32, flags: u32) -> FragTrackModel {
        if self.trex_locked {
            self
        } else {
            FragTrackModel {
                trex_default_sample_duration: duration,
                trex_default_sample_size: size,
                trex_default_sample_flags: flags,
                trex_locked: true,
                ..self
            }
        }
    }
}

impl FragTrackState {
    /// A track of which nothing has been written.
    pub fn new(track_id: u32, tkhd: Vec<u8>, mdia: Vec<u8>, media_time_scale: u32) -> (t: FragTrackState)
        ensures
            t@ == FragTrackModel::blank(track_id, tkhd@, mdia@, media_time_scale),
    {
        let t = FragTrackState {
            track_id,
            tkhd,
            mdia,
            media_time_scale,
            trex_default_sample_duration: 0,
            trex_default_sample_size: 0,
            trex_default_sample_flags: 0,
            trex_locked: false,
            pending: Vec::new(),
            next_bmdt: 0,
            packets_total: 0,
            first_pts: None,
            prev_pts: None,
            cumulative_duration: 0,
        };
        proof { assert(t@.pending =~= Seq::empty()); }
        t
    }

    /// Takes the defaults from the first sample.
    pub fn lock_trex(&mut self, duration: u32, size: u32, flags: u32)
        ensures
            final(self)@ == old(self)@.locked(duration, size, flags),
    {
        if self.trex_locked {
            return;
        }
        self.trex_default_sample_duration = duration;
        self.trex_default_sample_size = size;
        self.trex_default_sample_flags = flags;
        self.trex_locked = true;
    }
}

/// The flags word of a sample.
pub open spec fn flags_for(keyframe: bool) -> u32 {
    if keyframe { SAMPLE_DEPENDS_ON_NONE } else { SAMPLE_IS_NON_SYNC }
}

/// The flags word of a sample.
pub fn sample_flags_for(keyframe: bool) -> (f: u32)
    ensures
        f == flags_for(keyframe),
{
    if keyframe { SAMPLE_DEPENDS_ON_NONE } else { SAMPLE_IS_NON_SYNC }
}

/// When a fragment is written.
#[derive(Clone, Copy, Debug, PartialEq, Eq, Structural)]
pub enum FragmentCadence {
    /// Once the samples of the first track last so long, in its timescale.
    EveryTicks(u64),
    /// Before each keyframe of a track, whichever it is, that has a sample waiting.
    EveryKeyframe,
    /// Once a track, whichever it is, has so many samples; never for 0.
    EveryNPackets(u32),
    /// At the end only.
    AtEnd,
}

/// A family of brands.
#[derive(Clone, Copy, Debug, PartialEq, Eq, Structural)]
pub enum BrandPreset {
    Mp4,
    Mov,
    Ismv,
    Other,
}

/// The brands that a file or segment declares.
#[derive(Clone, Debug)]
pub struct Brand {
    pub preset: BrandPreset,
    pub major: [u8; 4],
    pub compatible: Vec<[u8; 4]>,
}

/// The model of `Brand`.
pub ghost struct BrandModel {
    pub preset: BrandPreset,
    pub major: [u8; 4],
    pub compatible: Seq<[u8; 4]>,
}

impl View for Brand {
    type V = BrandModel;

    open spec fn view(&self) -> BrandModel {
        BrandModel { preset: self.preset, major: self.major, compatible: self.compatible@ }
    }
}

/// The bytes of the codes from the `i`th on, behind `acc`.
pub open spec fn codes_bytes(acc: Seq<u8>, codes: Seq<[u8; 4]>, i: int) -> Seq<u8>
    decreases codes.len() - i,
{
    if i >= codes.len() { acc } else { codes_bytes(acc + codes[i]@, codes, i + 1) }
}

/// The payload of a file or segment type box.
pub open spec fn brand_payload(b: BrandModel, minor: u32) -> Seq<u8> {
    codes_bytes(Seq::<u8>::empty() + b.major@ + enc32(minor), b.compatible, 0)
}

/// The file type box.
pub open spec fn ftyp_bytes(b: BrandModel) -> Seq<u8> {
    boxed(FTYP, brand_payload(b, if b.preset == BrandPreset::Mp4 { 0x200 } else { 0 }))
}

/// The segment type box.
pub open spec fn styp_bytes(b: BrandModel) -> Seq<u8> {
    boxed(STYP, brand_payload(b, 0))
}

fn build_brand_payload(b: &Brand, minor: u32) -> (r: Vec<u8>)
    ensures
        r@ == brand_payload(b@, minor),
{
    let mut body: Vec<u8> = Vec::new();
    proof { assert(body@ =~= Seq::<u8>::empty()); }
    push_code(&mut body, b.major);
    push_u32(&mut body, minor);
    let ghost start = body@;
    let mut i: usize = 0;
    while i < b.compatible.len()
        invariant
            i <= b.compatible@.len(),
            codes_bytes(start, b.compatible@, 0) == codes_bytes(body@, b.compatible@, i as int),
        decreases b.compatible@.len() - i,
    {
        push_code(&mut body, b.compatible[i]);
        i += 1;
    }
    body
}

/// Builds the file type box.
pub fn build_ftyp(brand: &Brand) -> (r: Vec<u8>)
    ensures
        r@ == ftyp_bytes(brand@),
{
    let minor: u32 = if brand.preset == BrandPreset::Mp4 { 0x200 } else { 0 };
    wrap_box(FTYP, build_brand_payload(brand, minor).as_slice())
}

/// Builds the segment type box.
pub fn build_styp(brand: &Brand) -> (r: Vec<u8>)
    ensures
        r@ == styp_bytes(brand@),
{
    wrap_box(STYP, build_brand_payload(brand, 0).as_slice())
}

/// The payload of the box with the defaults of a track.
pub open spec fn trex_payload(t: FragTrackModel) -> Seq<u8> {
    enc32(0) + enc32(t.track_id) + enc32(1) + enc32(t.trex_default_sample_duration) + enc32(t.trex_default_sample_size)
        + enc32(t.trex_default_sample_flags)
}

/// Builds the box with the defaults of a track.
pub fn build_trex(t: &FragTrackState) -> (r: Vec<u8>)
    ensures
        r@ == boxed(TREX, trex_payload(t@)),
{
    let mut body: Vec<u8> = Vec::new();
    push_u32(&mut body, 0);
    push_u32(&mut body, t.track_id);
    push_u32(&mut body, 1);
    push_u32(&mut body, t.trex_default_sample_duration);
    push_u32(&mut body, t.trex_default_sample_size);
    push_u32(&mut body, t.trex_default_sample_flags);
    proof { assert(body@ =~= trex_payload(t@)); }
    wrap_box(TREX, body.as_slice())
}

/// The boxes with the defaults of the tracks from the `i`th on, behind `acc`.
pub open spec fn trexes_from(acc: Seq<u8>, tracks: Seq<FragTrackModel>, i: int) -> Seq<u8>
    decreases tracks.len() - i,
{
    if i >= tracks.len() { acc } else { trexes_from(acc + boxed(TREX, trex_payload(tracks[i])), tracks, i + 1) }
}

/// The movie extends box.
pub open spec fn mvex_bytes(tracks: Seq<FragTrackModel>) -> Seq<u8> {
    boxed(MVEX, trexes_from(Seq::empty(), tracks, 0))
}

/// Builds the movie extends box.
pub fn build_mvex(tracks: &Vec<FragTrackState>) -> (r: Vec<u8>)
    ensures
        r@ == mvex_bytes(views(tracks@)),
{
    let ghost rows = views(tracks@);
    let mut body: Vec<u8> = Vec::new();
    proof { assert(body@ =~= Seq::<u8>::empty()); }
    let mut i: usize = 0;
    while i < tracks.len()
        invariant
            i <= tracks@.len(),
            rows == views(tracks@),
            trexes_from(Seq::empty(), rows, 0) == trexes_from(body@, rows, i as int),
        decreases tracks@.len() - i,
    {
        assert(rows[i as int] == tracks@[i as int]@);
        push_bytes(&mut body, build_trex(&tracks[i]).as_slice());
        i += 1;
    }
    wrap_box(MVEX, body.as_slice())
}

/// The track box: header and media.
pub open spec fn trak_bytes(t: FragTrackModel) -> Seq<u8> {
    boxed(TRAK, t.tkhd + t.mdia)
}

/// Builds the track box of an initialization segment.
pub fn build_trak_init(t: &FragTrackState) -> (r: Vec<u8>)
    ensures
        r@ == trak_bytes(t@),
{
    let mut body: Vec<u8> = Vec::new();
    push_bytes(&mut body, t.tkhd.as_slice());
    push_bytes(&mut body, t.mdia.as_slice());
    proof { assert(body@ =~= t@.tkhd + t@.mdia); }
    wrap_box(TRAK, body.as_slice())
}

/// The track boxes of the tracks from the `i`th on, behind `acc`.
pub open spec fn traks_from(acc: Seq<u8>, tracks: Seq<FragTrackModel>, i: int) -> Seq<u8>
    decreases tracks.len() - i,
{
    if i >= tracks.len() { acc } else { traks_from(acc + trak_bytes(tracks[i]), tracks, i + 1) }
}

/// The movie box of an initialization segment: its header, its tracks and their defaults.
pub open spec fn init_moov_bytes(mvhd: Seq<u8>, tracks: Seq<FragTrackModel>) -> Seq<u8> {
    boxed(MOOV, traks_from(Seq::<u8>::empty() + mvhd, tracks, 0) + mvex_bytes(tracks))
}

/// Builds the movie box of an initialization segment.
pub fn build_init_moov(mvhd: &[u8], tracks: &Vec<FragTrackState>) -> (r: Vec<u8>)
    ensures
        r@ == init_moov_bytes(mvhd@, views(tracks@)),
{
    let ghost rows = views(tracks@);
    let mut body: Vec<u8> = Vec::new();
    proof { assert(body@ =~= Seq::<u8>::empty()); }
    push_bytes(&mut body, mvhd);
    let ghost start = body@;
    let mut i: usize = 0;
    while i < tracks.len()
        invariant
            i <= tracks@.len(),
            rows == views(tracks@),
            traks_from(start, rows, 0) == traks_from(body@, rows, i as int),
        decreases tracks@.len() - i,
    {
        assert(rows[i as int] == tracks@[i as int]@);
        push_bytes(&mut body, build_trak_init(&tracks[i]).as_slice());
        i += 1;
    }
    push_bytes(&mut body, build_mvex(tracks).as_slice());
    wrap_box(MOOV, body.as_slice())
}

/// What the samples of a fragment agree on.
#[derive(Clone, Copy, Debug)]
pub struct FragmentDefaults {
    /// The size of all samples.
    pub homogeneous_size: Option<u32>,
    /// The duration of all samples.
    pub homogeneous_duration: Option<u32>,
    /// The flags of all samples, or of all but the first.
    pub homogeneous_flags: Option<u32>,
    /// Whether the first sample has flags of its own.
    pub first_sample_distinct: bool,
    /// Its flags where it has.
    pub first_sample_flags: u32,
}

/// Whether all samples have the size.
pub open spec fn all_size(p: Seq<PendingModel>, size: u32) -> bool {
    forall|i: int| 0 <= i < p.len() ==> (#[trigger] p[i]).size() == size
}

/// Whether all samples have the duration.
pub open spec fn all_duration(p: Seq<PendingModel>, duration: u32) -> bool {
    forall|i: int| 0 <= i < p.len() ==> (#[trigger] p[i]).duration == duration
}

/// Whether all samples from the `k`th on have the flags.
pub open spec fn all_flags(p: Seq<PendingModel>, k: int, flags: u32) -> bool {
    forall|i: int| k <= i < p.len() ==> (#[trigger] p[i]).flags == flags
}

/// What samples agree on. Flags may differ on the first sample, as where it is the only keyframe.
pub open spec fn defaults_for(p: Seq<PendingModel>) -> FragmentDefaults {
    let same = p.len() > 0 && all_flags(p, 0, p[0].flags);
    let tail = p.len() > 1 && all_flags(p, 1, p[1].flags);
    FragmentDefaults {
        homogeneous_size: if p.len() > 0 && all_size(p, p[0].size()) { Some(p[0].size()) } else { None },
        homogeneous_duration: if p.len() > 0 && all_duration(p, p[0].duration) { Some(p[0].duration) } else { None },
        homogeneous_flags: if same {
            Some(p[0].flags)
        } else if tail {
            Some(p[1].flags)
        } else {
            None
        },
        first_sample_distinct: !same && tail,
        first_sample_flags: if !same && tail { p[0].flags } else { 0 },
    }
}

fn same_size(p: &Vec<PendingSample>, size: u32) -> (r: bool)
    ensures
        r == all_size(views(p@), size),
{
    let ghost rows = views(p@);
    let mut i: usize = 0;
    while i < p.len()
        invariant
            i <= p@.len(),
            rows == views(p@),
            forall|k: int| 0 <= k < i ==> (#[trigger] rows[k]).size() == size,
        decreases p@.len() - i,
    {
        assert(rows[i as int] == p@[i as int]@);
        if length32(p[i].data.len(), 0) != size {
            assert(rows[i as int].size() != size);
            return false;
        }
        i += 1;
    }
    true
}

fn same_duration(p: &Vec<PendingSample>, duration: u32) -> (r: bool)
    ensures
        r == all_duration(views(p@), duration),
{
    let ghost rows = views(p@);
    let mut i: usize = 0;
    while i < p.len()
        invariant
            i <= p@.len(),
            rows == views(p@),
            forall|k: int| 0 <= k < i ==> (#[trigger] rows[k]).duration == duration,
        decreases p@.len() - i,
    {
        assert(rows[i as int] == p@[i as int]@);
        if p[i].duration != duration {
            assert(rows[i as int].duration != duration);
            return false;
        }
        i += 1;
    }
    true
}

fn same_flags(p: &Vec<PendingSample>, from: usize, flags: u32) -> (r: bool)
    requires
        from <= p@.len(),
    ensures
        r == all_flags(views(p@), from as int, flags),
{
    let ghost rows = views(p@);
    let mut i: usize = from;
    while i < p.len()
        invariant
            from <= i <= p@.len(),
            rows == views(p@),
            forall|k: int| from <= k < i ==> (#[trigger] rows[k]).flags == flags,
        decreases p@.len() - i,
    {
        assert(rows[i as int] == p@[i as int]@);
        if p[i].flags != flags {
            assert(rows[i as int].flags != flags);
            return false;
        }
        i += 1;
    }
    true
}

impl FragmentDefaults {
    /// Finds what the samples of a track agree on.
    pub fn for_track(t: &FragTrackState) -> (d: FragmentDefaults)
        ensures
            d == defaults_for(t@.pending),
    {
        let p = &t.pending;
        let ghost rows = views(p@);
        let mut d = FragmentDefaults {
            homogeneous_size: None,
            homogeneous_duration: None,
            homogeneous_flags: None,
            first_sample_distinct: false,
            first_sample_flags: 0,
        };
        if p.len() > 0 {
            assert(rows[0] == p@[0]@);
            let size: u32 = length32(p[0].data.len(), 0);
            if same_size(p, size) {
                d.homogeneous_size = Some(size);
            }
            if same_duration(p, p[0].duration) {
                d.homogeneous_duration = Some(p[0].duration);
            }
            if same_flags(p, 0, p[0].flags) {
                d.homogeneous_flags = Some(p[0].flags);
            } else if p.len() > 1 {
                assert(rows[1] == p@[1]@);
                if same_flags(p, 1, p[1].flags) {
                    d.homogeneous_flags = Some(p[1].flags);
                    d.first_sample_distinct = true;
                    d.first_sample_flags = p[0].flags;
                }
            }
        }
        d
    }
}

/// The flag where it is wanted, else nothing.
pub open spec fn flag_if(want: bool, flag: u32) -> u32 {
    if want { flag } else { 0 }
}

/// The bytes of a number where there is one.
pub open spec fn enc_opt(v: Option<u32>) -> Seq<u8> {
    match v {
        Some(x) => enc32(x),
        None => Seq::empty(),
    }
}

/// The flags of a track fragment header: offsets are from the start of the fragment, and what the
/// samples agree on follows.
pub open spec fn tfhd_flags(d: FragmentDefaults) -> u32 {
    (TFHD_DEFAULT_BASE_IS_MOOF + flag_if(d.homogeneous_duration is Some, TFHD_DEFAULT_SAMPLE_DURATION_PRESENT) + flag_if(
        d.homogeneous_size is Some,
        TFHD_DEFAULT_SAMPLE_SIZE_PRESENT,
    ) + flag_if(d.homogeneous_flags is Some, TFHD_DEFAULT_SAMPLE_FLAGS_PRESENT)) as u32
}

/// The payload of a track fragment header.
pub open spec fn tfhd_payload(track_id: u32, d: FragmentDefaults) -> Seq<u8> {
    seq![0u8] + enc24(tfhd_flags(d)) + enc32(track_id) + enc_opt(d.homogeneous_duration) + enc_opt(d.homogeneous_size)
        + enc_opt(d.homogeneous_flags)
}

fn push_opt(out: &mut Vec<u8>, v: Option<u32>)
    ensures
        final(out)@ == old(out)@ + enc_opt(v),
{
    match v {
        Some(x) => push_u32(out, x),
        None => {
            proof { assert(out@ =~= old(out)@ + enc_opt(v)); }
        },
    }
}

fn flag_when(want: bool, flag: u32) -> (r: u32)
    ensures
        r == flag_if(want, flag),
{
    if want { flag } else { 0 }
}

/// Builds a track fragment header.
pub fn build_tfhd(t: &FragTrackState, d: FragmentDefaults) -> (r: Vec<u8>)
    ensures
        r@ == boxed(TFHD, tfhd_payload(t@.track_id, d)),
{
    let flags: u32 = TFHD_DEFAULT_BASE_IS_MOOF + flag_when(
        d.homogeneous_duration.is_some(),
        TFHD_DEFAULT_SAMPLE_DURATION_PRESENT,
    ) + flag_when(d.homogeneous_size.is_some(), TFHD_DEFAULT_SAMPLE_SIZE_PRESENT) + flag_when(
        d.homogeneous_flags.is_some(),
        TFHD_DEFAULT_SAMPLE_FLAGS_PRESENT,
    );
    let mut body: Vec<u8> = Vec::new();
    body.push(0);
    proof { assert(body@ =~= seq![0u8]); }
    push_u24(&mut body, flags);
    push_u32(&mut body, t.track_id);
    push_opt(&mut body, d.homogeneous_duration);
    push_opt(&mut body, d.homogeneous_size);
    push_opt(&mut body, d.homogeneous_flags);
    wrap_box(TFHD, body.as_slice())
}

/// The payload of the box with the decode time of a track fragment, in 64 bits.
pub open spec fn tfdt_payload(bmdt: u64) -> Seq<u8> {
    enc32(0x100_0000) + enc64(bmdt)
}

/// Builds the box with the decode time of a track fragment.
pub fn build_tfdt(bmdt: u64) -> (r: Vec<u8>)
    ensures
        r@ == boxed(TFDT, tfdt_payload(bmdt)),
{
    let mut body: Vec<u8> = Vec::new();
    push_u32(&mut body, 0x100_0000);
    push_u64(&mut body, bmdt);
    proof { assert(body@ =~= tfdt_payload(bmdt)); }
    wrap_box(TFDT, body.as_slice())
}

/// Whether a sample is shown at another time than it is decoded.
pub open spec fn any_offset(p: Seq<PendingModel>) -> bool {
    exists|i: int| 0 <= i < p.len() && (#[trigger] p[i]).composition_time_offset != 0
}

/// The flags of a track run: what the samples do not agree on is given for each.
pub open spec fn trun_flags(d: FragmentDefaults, cts: bool) -> u32 {
    (TRUN_DATA_OFFSET_PRESENT + flag_if(d.first_sample_distinct, TRUN_FIRST_SAMPLE_FLAGS_PRESENT) + flag_if(
        d.homogeneous_duration is None,
        TRUN_SAMPLE_DURATION_PRESENT,
    ) + flag_if(d.homogeneous_size is None, TRUN_SAMPLE_SIZE_PRESENT) + flag_if(
        d.homogeneous_flags is None,
        TRUN_SAMPLE_FLAGS_PRESENT,
    ) + flag_if(cts, TRUN_SAMPLE_COMPOSITION_TIME_OFFSETS_PRESENT)) as u32
}

/// The bytes of a number where it is wanted.
pub open spec fn enc_if(want: bool, x: u32) -> Seq<u8> {
    if want { enc32(x) } else { Seq::empty() }
}

/// The row of a sample in a track run.
pub open spec fn trun_row_bytes(d: FragmentDefaults, cts: bool, s: PendingModel) -> Seq<u8> {
    enc_if(d.homogeneous_duration is None, s.duration) + enc_if(d.homogeneous_size is None, s.size()) + enc_if(
        d.homogeneous_flags is None,
        s.flags,
    ) + enc_if(cts, u32_of(s.composition_time_offset))
}

/// The rows of the first `n` samples.
pub open spec fn trun_rows_bytes(d: FragmentDefaults, cts: bool, p: Seq<PendingModel>, n: int) -> Seq<u8>
    decreases n,
{
    if n <= 0 { Seq::empty() } else { trun_rows_bytes(d, cts, p, n - 1) + trun_row_bytes(d, cts, p[n - 1]) }
}

/// What comes before the rows of a track run.
pub open spec fn trun_head(p: Seq<PendingModel>, data_offset: i32, d: FragmentDefaults) -> Seq<u8> {
    seq![1u8] + enc24(trun_flags(d, any_offset(p))) + enc32(low32(p.len() as int)) + enc32(u32_of(data_offset))
        + enc_if(d.first_sample_distinct, d.first_sample_flags)
}

/// The payload of a track run whose data starts at the given offset from the start of the fragment.
pub open spec fn trun_payload(p: Seq<PendingModel>, data_offset: i32, d: FragmentDefaults) -> Seq<u8> {
    trun_head(p, data_offset, d) + trun_rows_bytes(d, any_offset(p), p, p.len() as int)
}

fn has_offset(p: &Vec<PendingSample>) -> (r: bool)
    ensures
        r == any_offset(views(p@)),
{
    let ghost rows = views(p@);
    let mut i: usize = 0;
    while i < p.len()
        invariant
            i <= p@.len(),
            rows == views(p@),
            forall|k: int| 0 <= k < i ==> (#[trigger] rows[k]).composition_time_offset == 0,
        decreases p@.len() - i,
    {
        assert(rows[i as int] == p@[i as int]@);
        if p[i].composition_time_offset != 0 {
            assert(rows[i as int].composition_time_offset != 0);
            return true;
        }
        i += 1;
    }
    false
}

fn push_if(out: &mut Vec<u8>, want: bool, x: u32)
    ensures
        final(out)@ == old(out)@ + enc_if(want, x),
{
    if want {
        push_u32(out, x);
    } else {
        proof { assert(out@ =~= old(out)@ + enc_if(want, x)); }
    }
}

/// Appends the row of a sample.
fn push_row(out: &mut Vec<u8>, d: &FragmentDefaults, cts: bool, s: &PendingSample)
    ensures
        final(out)@ == old(out)@ + trun_row_bytes(*d, cts, s@),
{
    push_if(out, d.homogeneous_duration.is_none(), s.duration);
    push_if(out, d.homogeneous_size.is_none(), length32(s.data.len(), 0));
    push_if(out, d.homogeneous_flags.is_none(), s.flags);
    push_if(out, cts, of_i32(s.composition_time_offset));
    proof { assert(out@ =~= old(out)@ + trun_row_bytes(*d, cts, s@)); }
}

/// Builds a track run.
pub fn build_trun(t: &FragTrackState, data_offset: i32, d: FragmentDefaults) -> (r: Vec<u8>)
    ensures
        r@ == boxed(TRUN, trun_payload(t@.pending, data_offset, d)),
{
    let p = &t.pending;
    let ghost rows = views(p@);
    let cts = has_offset(p);
    let flags: u32 = TRUN_DATA_OFFSET_PRESENT + flag_when(d.first_sample_distinct, TRUN_FIRST_SAMPLE_FLAGS_PRESENT)
        + flag_when(d.homogeneous_duration.is_none(), TRUN_SAMPLE_DURATION_PRESENT) + flag_when(
        d.homogeneous_size.is_none(),
        TRUN_SAMPLE_SIZE_PRESENT,
    ) + flag_when(d.homogeneous_flags.is_none(), TRUN_SAMPLE_FLAGS_PRESENT) + flag_when(
        cts,
        TRUN_SAMPLE_COMPOSITION_TIME_OFFSETS_PRESENT,
    );
    let mut body: Vec<u8> = Vec::new();
    body.push(1);
    proof { assert(body@ =~= seq![1u8]); }
    push_u24(&mut body, flags);
    push_u32(&mut body, length32(p.len(), 0));
    push_u32(&mut body, of_i32(data_offset));
    push_if(&mut body, d.first_sample_distinct, d.first_sample_flags);
    let ghost head = body@;
    proof {
        assert(head == trun_head(rows, data_offset, d));
        assert(head + trun_rows_bytes(d, cts, rows, 0) =~= head);
    }
    let mut i: usize = 0;
    while i < p.len()
        invariant
            i <= p@.len(),
            rows == views(p@),
            body@ == head + trun_rows_bytes(d, cts, rows, i as int),
        decreases p@.len() - i,
    {
        let s = &p[i];
        assert(rows[i as int] == s@);
        let ghost row = trun_row_bytes(d, cts, s@);
        let ghost so_far = trun_rows_bytes(d, cts, rows, i as int);
        push_row(&mut body, &d, cts, s);
        proof {
            assert(trun_rows_bytes(d, cts, rows, i + 1) == so_far + row);
            assert(head + so_far + row =~= head + (so_far + row));
        }
        i += 1;
    }
    wrap_box(TRUN, body.as_slice())
}

/// The payload of a track fragment: its header, its decode time and its run.
#[verifier::opaque]
pub open spec fn traf_payload(t: FragTrackModel, data_offset: i32) -> Seq<u8> {
    boxed(TFHD, tfhd_payload(t.track_id, defaults_for(t.pending))) + boxed(TFDT, tfdt_payload(t.next_bmdt)) + boxed(
        TRUN,
        trun_payload(t.pending, data_offset, defaults_for(t.pending)),
    )
}

/// Builds a track fragment.
pub fn build_traf(t: &FragTrackState, data_offset: i32) -> (r: Vec<u8>)
    ensures
        r@ == boxed(TRAF, traf_payload(t@, data_offset)),
{
    proof { reveal(traf_payload); }
    let d = FragmentDefaults::for_track(t);
    let mut body: Vec<u8> = build_tfhd(t, d);
    push_bytes(&mut body, build_tfdt(t.next_bmdt).as_slice());
    push_bytes(&mut body, build_trun(t, data_offset, d).as_slice());
    wrap_box(TRAF, body.as_slice())
}

/// The payload of a movie fragment header.
pub open spec fn mfhd_payload(seq: u32) -> Seq<u8> {
    enc32(0) + enc32(seq)
}

/// Builds a movie fragment header.
pub fn build_mfhd(seq: u32) -> (r: Vec<u8>)
    ensures
        r@ == boxed(MFHD, mfhd_payload(seq)),
{
    let mut body: Vec<u8> = Vec::new();
    push_u32(&mut body, 0);
    push_u32(&mut body, seq);
    proof { assert(body@ =~= mfhd_payload(seq)); }
    wrap_box(MFHD, body.as_slice())
}

/// How many bytes the first `n` samples have.
pub open spec fn data_len(p: Seq<PendingModel>, n: int) -> int
    decreases n,
{
    if n <= 0 { 0 } else { data_len(p, n - 1) + p[n - 1].data.len() }
}

/// The offset of data from the start of a fragment whose movie fragment box has the given size: behind
/// that box and the header of the data box. Without a size, 0.
pub open spec fn data_offset(moof_size: Option<int>, byte: int) -> i32 {
    match moof_size {
        Some(n) => s32(low32(n + 8 + byte)),
        None => 0,
    }
}

/// The track fragments of the tracks from the `i`th on that have samples, behind `acc`. `byte` is
/// where in the data the samples of the `i`th track start.
pub open spec fn trafs_from(acc: Seq<u8>, tracks: Seq<FragTrackModel>, i: int, byte: int, moof_size: Option<int>) -> Seq<u8>
    decreases tracks.len() - i,
{
    if i >= tracks.len() {
        acc
    } else if tracks[i].pending.len() == 0 {
        trafs_from(acc, tracks, i + 1, byte, moof_size)
    } else {
        trafs_from(
            acc + boxed(TRAF, traf_payload(tracks[i], data_offset(moof_size, byte))),
            tracks,
            i + 1,
            byte + data_len(tracks[i].pending, tracks[i].pending.len() as int),
            moof_size,
        )
    }
}

/// The payload of the movie fragment box, given its size where that is known.
pub open spec fn moof_payload(seq: u32, tracks: Seq<FragTrackModel>, moof_size: Option<int>) -> Seq<u8> {
    trafs_from(boxed(MFHD, mfhd_payload(seq)), tracks, 0, 0, moof_size)
}

/// The size of the movie fragment box.
pub open spec fn moof_len(seq: u32, tracks: Seq<FragTrackModel>) -> int {
    8 + moof_payload(seq, tracks, None).len() as int
}

/// The movie fragment box, with offsets that go by its size.
pub open spec fn moof_bytes(seq: u32, tracks: Seq<FragTrackModel>) -> Seq<u8> {
    boxed(MOOF, moof_payload(seq, tracks, Some(moof_len(seq, tracks))))
}

/// How many bytes the samples have, around 2 to the power 64.
fn pending_bytes(p: &Vec<PendingSample>, start: u64) -> (r: u64)
    ensures
        forall|byte: int| start == #[trigger] wrap_u64(byte) ==> r == wrap_u64(
            byte + data_len(views(p@), p@.len() as int),
        ),
{
    let ghost rows = views(p@);
    let mut r: u64 = start;
    let mut i: usize = 0;
    proof {
        assert forall|byte: int| start == #[trigger] wrap_u64(byte) implies r == wrap_u64(byte + data_len(rows, 0)) by {}
    }
    while i < p.len()
        invariant
            i <= p@.len(),
            rows == views(p@),
            forall|byte: int| start == #[trigger] wrap_u64(byte) ==> r == wrap_u64(byte + data_len(rows, i as int)),
        decreases p@.len() - i,
    {
        let n: usize = p[i].data.len();
        let ghost before = r;
        assert(rows[i as int].data.len() == n);
        r = wrapped_add_u64(r, n as u64);
        proof {
            assert forall|byte: int| start == #[trigger] wrap_u64(byte) implies r == wrap_u64(
                byte + data_len(rows, i + 1),
            ) by {
                lemma_wrap_u64_add(byte + data_len(rows, i as int), n as int);
            }
        }
        i += 1;
    }
    r
}

/// The low 32 bits of a sum, of which one part is known around 2 to the power 64.
proof fn lemma_low_bits(size: u64, byte: u64, b: int)
    requires
        byte == wrap_u64(b),
    ensures
        (size % 0x1_0000_0000 + 8 + byte % 0x1_0000_0000) % 0x1_0000_0000 == (size + 8 + b) % 0x1_0000_0000,
{
    let k: int = b / 0x1_0000_0000_0000_0000;
    let low: int = size % 0x1_0000_0000 + 8 + byte % 0x1_0000_0000;
    let high: int = size as int / 0x1_0000_0000 + byte as int / 0x1_0000_0000 + 0x1_0000_0000 * k;
    assert(b == 0x1_0000_0000_0000_0000 * k + byte);
    assert(size + 8 + b == 0x1_0000_0000 * high + low);
    lemma_mod_multiples_vanish(high, low, 0x1_0000_0000);
}

/// The low 32 bits of a number that is known around 2 to the power 64.
fn wrapped_offset(size: u64, byte: u64) -> (r: i32)
    ensures
        forall|b: int| byte == #[trigger] wrap_u64(b) ==> r == s32(low32(size + 8 + b)),
{
    let low: u64 = (size % 0x1_0000_0000 + 8 + byte % 0x1_0000_0000) % 0x1_0000_0000;
    let r: i32 = to_i32(low as u32);
    proof {
        assert forall|b: int| byte == #[trigger] wrap_u64(b) implies r == s32(low32(size + 8 + b)) by {
            lemma_low_bits(size, byte, b);
        }
    }
    r
}

/// Builds the movie fragment box; its size decides the offsets where it is known.
pub fn build_moof_inner(seq: u32, tracks: &Vec<FragTrackState>, moof_size: Option<u64>) -> (r: Vec<u8>)
    ensures
        r@ == boxed(
            MOOF,
            moof_payload(
                seq,
                views(tracks@),
                match moof_size {
                    Some(n) => Some(n as int),
                    None => None,
                },
            ),
        ),
{
    let ghost rows = views(tracks@);
    let ghost size = match moof_size {
        Some(n) => Some(n as int),
        None => None,
    };
    let mut body: Vec<u8> = build_mfhd(seq);
    let ghost start = body@;
    let mut byte: u64 = 0;
    let ghost mut true_byte: int = 0;
    let mut i: usize = 0;
    while i < tracks.len()
        invariant
            i <= tracks@.len(),
            rows == views(tracks@),
            byte == wrap_u64(true_byte),
            size == (match moof_size {
                Some(n) => Some(n as int),
                None => None::<int>,
            }),
            trafs_from(start, rows, 0, 0, size) == trafs_from(body@, rows, i as int, true_byte, size),
        decreases tracks@.len() - i,
    {
        let t = &tracks[i];
        assert(rows[i as int] == t@);
        if t.pending.len() != 0 {
            let offset: i32 = match moof_size {
                Some(n) => wrapped_offset(n, byte),
                None => 0,
            };
            push_bytes(&mut body, build_traf(t, offset).as_slice());
            byte = pending_bytes(&t.pending, byte);
            proof { true_byte = true_byte + data_len(t@.pending, t@.pending.len() as int); }
        }
        i += 1;
    }
    wrap_box(MOOF, body.as_slice())
}

/// The size of a box does not depend on the value of a data offset in it.
proof fn lemma_traf_len(t: FragTrackModel, a: i32, b: i32)
    ensures
        traf_payload(t, a).len() == traf_payload(t, b).len(),
{
    reveal(traf_payload);
    let d = defaults_for(t.pending);
    assert(enc32(u32_of(a)).len() == enc32(u32_of(b)).len());
    assert(trun_head(t.pending, a, d).len() == trun_head(t.pending, b, d).len());
    assert(trun_payload(t.pending, a, d).len() == trun_payload(t.pending, b, d).len());
}

proof fn lemma_trafs_len(
    acc: Seq<u8>,
    acc2: Seq<u8>,
    tracks: Seq<FragTrackModel>,
    i: int,
    byte: int,
    a: Option<int>,
    b: Option<int>,
)
    requires
        acc.len() == acc2.len(),
    ensures
        trafs_from(acc, tracks, i, byte, a).len() == trafs_from(acc2, tracks, i, byte, b).len(),
    decreases tracks.len() - i,
{
    if i < tracks.len() {
        if tracks[i].pending.len() == 0 {
            lemma_trafs_len(acc, acc2, tracks, i + 1, byte, a, b);
        } else {
            let t = tracks[i];
            lemma_traf_len(t, data_offset(a, byte), data_offset(b, byte));
            lemma_trafs_len(
                acc + boxed(TRAF, traf_payload(t, data_offset(a, byte))),
                acc2 + boxed(TRAF, traf_payload(t, data_offset(b, byte))),
                tracks,
                i + 1,
                byte + data_len(t.pending, t.pending.len() as int),
                a,
                b,
            );
        }
    }
}

/// The size of a movie fragment box does not depend on the offsets in it: the size by which they were
/// computed is the size that it has.
pub proof fn law_moof_len(seq: u32, tracks: Seq<FragTrackModel>)
    ensures
        moof_bytes(seq, tracks).len() == moof_len(seq, tracks),
{
    let start = boxed(MFHD, mfhd_payload(seq));
    lemma_trafs_len(start, start, tracks, 0, 0, None, Some(moof_len(seq, tracks)));
}

/// Builds the movie fragment box: once to learn its size, and once with the offsets that follow.
pub fn build_moof(seq: u32, tracks: &Vec<FragTrackState>) -> (r: Vec<u8>)
    ensures
        r@ == moof_bytes(seq, views(tracks@)),
{
    let placeholder = build_moof_inner(seq, tracks, None);
    build_moof_inner(seq, tracks, Some(placeholder.len() as u64))
}

}
