//! The demuxer: the streams of a file, their packets, and seeking.
use vstd::prelude::*;
use crate::boxes::{opt_view, views, Outcome};
use crate::cenc::{PsshBox, PsshModel};
use crate::error::{seen, Error, Result};
use crate::fragment::{
    frag_of, law_moof_tracks, law_traf_starts, moof_of, no_scan, parse_moof, scan_from, starts_with,
    tracks_below, traf_of, FragModel, MoofModel, MoofPsshModel, MoofRecord, SaiRecordModel, SencRecordModel,
};
use crate::index::{SidxModel, TfraModel, TrepModel};
use crate::meta::Metadata;
use crate::movie::{has_media_track, law_movie_tracks, moov_of, parse_moov, MovieModel, ParsedMoov};
use crate::numbers::{clamp64, clamped, length32, low32, wrap64};
use crate::samples::{
    decode_time, expand_samples, expanded, law_decode_times_ascend, law_expand_appends, placement, sample_at,
    sample_delta, SampleRef,
};
use crate::stream::{build_stream_info, stream_of, StreamInfo, StreamModel};
use crate::summary::{
    each_meta, leva_meta, leva_text, mehd_meta, moof_pssh_meta, moof_pssh_text, pdin_meta, pdin_text,
    prft_meta, prft_text, pssh_meta, pssh_text, push_leva, push_mehd, push_moof_psshes, push_pdin,
    push_prfts, push_psshes, push_sais, push_sencs, push_ssixes, push_treps, sai_meta, sai_text,
    senc_meta, senc_text, ssix_meta, ssix_text, trep_meta, trep_text,
};
use crate::text::{dec, numbered};
use crate::toplevel::{TopLevel, TopModel};
use crate::track::{Track, TrackModel};
use crate::trak::{elst_leading_media_time, leading_media_time};

pub use crate::flags::{parse_sample_flags, SampleFlags};
pub use crate::fragment::{MoofPsshRecord, SaiRecord, SencRecord, TrafSaio, TrafSaiz};
pub use crate::index::{
    build_ssix_box, parse_leva_box, parse_mfra_box, parse_pdin_box, parse_prft_box, parse_sidx_box,
    parse_ssix_box, parse_trep_box, LevaEntry, LevaRecord, PdinEntry, PdinRecord, PrftRecord, SidxRecord,
    SidxReference, SsixRange, SsixRecord, SsixSubsegment, TfraEntry, TfraRecord, TrepChild, TrepRecord,
};

verus! {

/// The movie of a file: it must have a file type box, a movie box and a track.
pub open spec fn movie_of(top: TopModel) -> Result<MovieModel> {
    if !top.saw_ftyp {
        Err(Error::invalid("MP4: missing ftyp box"))
    } else {
        match top.moov {
            None => Err(Error::invalid("MP4: missing moov box")),
            Some(b) => match moov_of(b) {
                Err(e) => Err(e),
                Ok(m) => if m.tracks.len() == 0 { Err(Error::invalid("MP4: no tracks")) } else { Ok(m) },
            },
        }
    }
}

/// A file can be opened only where it has a file type box, a movie box, and in this a track box with a
/// media box.
pub proof fn law_movie_needs(top: TopModel)
    requires
        movie_of(top) is Ok,
    ensures
        top.saw_ftyp,
        top.moov is Some,
        has_media_track(top.moov->0, 0),
{
    law_movie_tracks(top.moov->0);
}

/// Parses the movie of a file.
pub fn parse_movie(top: &TopLevel) -> (r: Result<ParsedMoov>)
    ensures
        seen(r) == movie_of(top@),
{
    if !top.saw_ftyp {
        return Err(Error::invalid("MP4: missing ftyp box"));
    }
    match &top.moov {
        None => Err(Error::invalid("MP4: missing moov box")),
        Some(b) => {
            let m = parse_moov(b.as_slice())?;
            if m.tracks.len() == 0 {
                return Err(Error::invalid("MP4: no tracks"));
            }
            Ok(m)
        },
    }
}

/// The samples of the tracks from the `i`th on, behind those in `acc`.
pub open spec fn table_samples(tracks: Seq<TrackModel>, i: int, acc: Seq<SampleRef>) -> Outcome<Seq<SampleRef>>
    decreases tracks.len() - i,
{
    if i >= tracks.len() {
        (acc, Ok(()))
    } else {
        match expanded(tracks[i], low32(i), acc) {
            (acc2, Err(e)) => (acc2, Err(e)),
            (acc2, Ok(())) => table_samples(tracks, i + 1, acc2),
        }
    }
}

/// When the samples of a track that come before a fragment end, in the time of the media: without the
/// shift that its edits ask for.
pub open spec fn media_end(s: SampleRef, tracks: Seq<TrackModel>) -> i64 {
    clamp64(s.dts + leading_media_time(tracks[s.track_idx as int].elst) + s.duration)
}

/// The decode time, in the time of the media, that each track comes to behind the samples from the `i`th
/// on, where it is beyond that in `acc`.
pub open spec fn end_times(tracks: Seq<TrackModel>, samples: Seq<SampleRef>, i: int, acc: Seq<i64>) -> Seq<i64>
    decreases samples.len() - i,
{
    if i >= samples.len() {
        acc
    } else {
        let k = samples[i].track_idx as int;
        let end = media_end(samples[i], tracks);
        end_times(tracks, samples, i + 1, if end > acc[k] { acc.update(k, end) } else { acc })
    }
}

/// The decode times, in the time of the media, that the tracks come to behind their sample tables.
pub open spec fn table_ends(tracks: Seq<TrackModel>, samples: Seq<SampleRef>) -> Seq<i64> {
    end_times(tracks, samples, 0, Seq::new(tracks.len(), |i: int| 0i64))
}

/// What the fragments from the `i`th on add.
pub open spec fn all_fragments(
    moofs: Seq<MoofModel>,
    i: int,
    f: FragModel,
    psshes: Seq<MoofPsshModel>,
    tracks: Seq<TrackModel>,
) -> (FragModel, Seq<MoofPsshModel>, Result<()>)
    decreases moofs.len() - i,
{
    if i >= moofs.len() {
        (f, psshes, Ok(()))
    } else {
        match moof_of(f, psshes, moofs[i].body, moofs[i].moof_start, tracks) {
            (f2, p2, Err(e)) => (f2, p2, Err(e)),
            (f2, p2, Ok(())) => all_fragments(moofs, i + 1, f2, p2, tracks),
        }
    }
}

/// A sequence in order of offset, with `x` put in behind what does not start later.
pub open spec fn insert_by_offset(s: Seq<SampleRef>, x: SampleRef) -> Seq<SampleRef>
    decreases s.len(),
{
    if s.len() == 0 || s.last().offset <= x.offset {
        s.push(x)
    } else {
        insert_by_offset(s.drop_last(), x).push(s.last())
    }
}

/// The samples in order of offset; those of one offset keep their order.
pub open spec fn by_offset(s: Seq<SampleRef>) -> Seq<SampleRef>
    decreases s.len(),
{
    if s.len() == 0 { s } else { insert_by_offset(by_offset(s.drop_last()), s.last()) }
}

/// `slice::sort_by_key` with the offset as key: ascending, and what has the same offset keeps
/// its order.
#[verifier::external_body]
fn sort_by_offset(v: &mut Vec<SampleRef>)
    ensures
        final(v)@ == by_offset(old(v)@),
{
    v.sort_by_key(|s| s.offset)
}

/// Whether offsets do not descend.
pub open spec fn offsets_ascend(s: Seq<SampleRef>) -> bool {
    forall|i: int, j: int| 0 <= i < j < s.len() ==> (#[trigger] s[i]).offset <= (#[trigger] s[j]).offset
}

proof fn lemma_insert_by_offset(s: Seq<SampleRef>, x: SampleRef)
    requires
        offsets_ascend(s),
    ensures
        offsets_ascend(insert_by_offset(s, x)),
        insert_by_offset(s, x).len() == s.len() + 1,
        insert_by_offset(s, x).to_multiset() == s.to_multiset().insert(x),
        s.len() > 0 ==> insert_by_offset(s, x).last().offset == (if s.last().offset <= x.offset {
            x.offset
        } else {
            s.last().offset
        }),
    decreases s.len(),
{
    broadcast use vstd::seq_lib::group_to_multiset_ensures;

    if s.len() > 0 && s.last().offset > x.offset {
        let t = s.drop_last();
        lemma_insert_by_offset(t, x);
        let r = insert_by_offset(t, x);
        assert(t.push(s.last()) =~= s);
        assert(r.push(s.last()).to_multiset() =~= s.to_multiset().insert(x));
        assert forall|i: int, j: int| 0 <= i < j < r.push(s.last()).len() implies (#[trigger] r.push(s.last())[i]).offset
            <= (#[trigger] r.push(s.last())[j]).offset by {
            if j == r.len() {
                if t.len() > 0 {
                    assert(t.last().offset <= s.last().offset);
                    assert(r.last().offset <= s.last().offset);
                }
                if i < r.len() - 1 {
                    assert(r[i].offset <= r[r.len() - 1].offset);
                }
            }
        }
    } else {
        assert forall|i: int, j: int| 0 <= i < j < s.push(x).len() implies (#[trigger] s.push(x)[i]).offset <= (
        #[trigger] s.push(x)[j]).offset by {
            if j == s.len() && i < s.len() - 1 {
                assert(s[i].offset <= s[s.len() - 1].offset);
            }
        }
    }
}

/// Sorting by offset gives the same samples in order of offset.
pub proof fn law_by_offset(s: Seq<SampleRef>)
    ensures
        offsets_ascend(by_offset(s)),
        by_offset(s).len() == s.len(),
        by_offset(s).to_multiset() == s.to_multiset(),
    decreases s.len(),
{
    broadcast use vstd::seq_lib::group_to_multiset_ensures;

    if s.len() > 0 {
        law_by_offset(s.drop_last());
        lemma_insert_by_offset(by_offset(s.drop_last()), s.last());
        assert(s.drop_last().push(s.last()) =~= s);
    }
}

proof fn lemma_insert_tracks(s: Seq<SampleRef>, x: SampleRef, n: nat)
    requires
        tracks_below(s, n),
        x.track_idx < n,
    ensures
        tracks_below(insert_by_offset(s, x), n),
    decreases s.len(),
{
    if s.len() > 0 && s.last().offset > x.offset {
        lemma_insert_tracks(s.drop_last(), x, n);
    }
}

proof fn lemma_sorted_tracks(s: Seq<SampleRef>, n: nat)
    requires
        tracks_below(s, n),
    ensures
        tracks_below(by_offset(s), n),
    decreases s.len(),
{
    if s.len() > 0 {
        lemma_sorted_tracks(s.drop_last(), n);
        lemma_insert_tracks(by_offset(s.drop_last()), s.last(), n);
    }
}

/// The duration of a movie: that with all fragments where it is known, else its own.
pub open spec fn movie_length(m: MovieModel) -> u64 {
    match m.mehd_fragment_duration {
        Some(d) if d > 0 => d,
        _ => m.movie_duration,
    }
}

/// The duration of a movie in microseconds, or 0 where it is not known.
pub open spec fn movie_micros(m: MovieModel) -> i64 {
    if m.movie_timescale > 0 && movie_length(m) > 0 {
        wrap64(movie_length(m) as int * 1_000_000 / m.movie_timescale as int)
    } else {
        0
    }
}

/// The duration of a movie in microseconds.
fn duration_of(m: &ParsedMoov) -> (r: i64)
    ensures
        r == movie_micros(m@),
{
    let length: u64 = match m.mehd_fragment_duration {
        Some(d) => if d > 0 { d } else { m.movie_duration },
        None => m.movie_duration,
    };
    if m.movie_timescale > 0 && length > 0 {
        let q: u128 = (length as u128) * 1_000_000 / (m.movie_timescale as u128);
        let low: u128 = q % 0x1_0000_0000_0000_0000;
        if low < 0x8000_0000_0000_0000 { low as i64 } else { (low as i128 - 0x1_0000_0000_0000_0000) as i64 }
    } else {
        0
    }
}

/// The metadata of a file: that of its movie, and what sums up its boxes.
pub open spec fn file_metadata(top: TopModel, m: MovieModel, f: FragModel, psshes: Seq<MoofPsshModel>) -> Metadata {
    let m1 = mehd_meta(m.metadata, m.mehd_fragment_duration);
    let m2 = pdin_meta(m1, top.pdin);
    let m3 = leva_meta(m2, m.leva);
    let m4 = trep_meta(m3, m.treps, 0);
    let m5 = prft_meta(m4, top.prfts, 0);
    let m6 = ssix_meta(m5, top.ssixes, 0);
    let m7 = pssh_meta(m6, m.psshes, 0);
    let m8 = senc_meta(m7, f.sencs, 0);
    let m9 = sai_meta(m8, f.sais, 0);
    moof_pssh_meta(m9, psshes, 0)
}

/// A demuxer, but for the file itself.
pub struct Mp4Demuxer {
    pub streams: Vec<StreamInfo>,
    /// All samples, in order of offset.
    pub samples: Vec<SampleRef>,
    /// The sample that comes next.
    pub cursor: usize,
    pub metadata: Vec<(String, String)>,
    pub duration_micros: i64,
    pub sidxes: Vec<SidxRecord>,
    pub ssixes: Vec<SsixRecord>,
    pub tfras: Vec<TfraRecord>,
    pub prfts: Vec<PrftRecord>,
    pub pdin: Option<PdinRecord>,
    pub leva: Option<LevaRecord>,
    pub treps: Vec<TrepRecord>,
    pub psshes: Vec<PsshBox>,
    pub moof_psshes: Vec<MoofPsshRecord>,
    pub senc_records: Vec<SencRecord>,
    pub sai_records: Vec<SaiRecord>,
    pub movie_timescale: u32,
    pub track_timescales: Vec<u32>,
    pub track_ids: Vec<u32>,
}

/// The model of `Mp4Demuxer`.
pub ghost struct DemuxModel {
    pub streams: Seq<StreamModel>,
    pub samples: Seq<SampleRef>,
    pub cursor: int,
    pub metadata: Metadata,
    pub duration_micros: i64,
    pub sidxes: Seq<SidxModel>,
    pub ssixes: Seq<Seq<Seq<SsixRange>>>,
    pub tfras: Seq<TfraModel>,
    pub prfts: Seq<PrftRecord>,
    pub pdin: Option<Seq<PdinEntry>>,
    pub leva: Option<Seq<LevaEntry>>,
    pub treps: Seq<TrepModel>,
    pub psshes: Seq<PsshModel>,
    pub moof_psshes: Seq<MoofPsshModel>,
    pub senc_records: Seq<SencRecordModel>,
    pub sai_records: Seq<SaiRecordModel>,
    pub movie_timescale: u32,
    pub track_timescales: Seq<u32>,
    pub track_ids: Seq<u32>,
}

impl View for Mp4Demuxer {
    type V = DemuxModel;

    open spec fn view(&self) -> DemuxModel {
        DemuxModel {
            streams: views(self.streams@),
            samples: self.samples@,
            cursor: self.cursor as int,
            metadata: views(self.metadata@),
            duration_micros: self.duration_micros,
            sidxes: views(self.sidxes@),
            ssixes: views(self.ssixes@),
            tfras: views(self.tfras@),
            prfts: self.prfts@,
            pdin: opt_view(self.pdin),
            leva: opt_view(self.leva),
            treps: views(self.treps@),
            psshes: views(self.psshes@),
            moof_psshes: views(self.moof_psshes@),
            senc_records: views(self.senc_records@),
            sai_records: views(self.sai_records@),
            movie_timescale: self.movie_timescale,
            track_timescales: self.track_timescales@,
            track_ids: self.track_ids@,
        }
    }
}

impl DemuxModel {
    /// Every sample is of a stream, samples are in order of offset, and there is a timescale and a number
    /// for each stream.
    pub open spec fn wf(self) -> bool {
        &&& tracks_below(self.samples, self.streams.len())
        &&& offsets_ascend(self.samples)
        &&& self.track_timescales.len() == self.streams.len()
        &&& self.track_ids.len() == self.streams.len()
    }
}

/// The demuxer of a file with the given movie, whose streams have the given codecs.
pub open spec fn demux_of(top: TopModel, m: MovieModel, codec_ids: Seq<Seq<char>>) -> Result<DemuxModel> {
    match table_samples(m.tracks, 0, Seq::empty()) {
        (_, Err(e)) => Err(e),
        (samples, Ok(())) => {
            let f0 = FragModel { samples, next_dts: table_ends(m.tracks, samples), sencs: Seq::empty(), sais: Seq::empty() };
            match all_fragments(top.moofs, 0, f0, Seq::empty(), m.tracks) {
                (_, _, Err(e)) => Err(e),
                (f, psshes, Ok(())) => Ok(
                    DemuxModel {
                        streams: Seq::new(m.tracks.len(), |i: int| stream_of(low32(i), m.tracks[i], codec_ids[i])),
                        samples: by_offset(f.samples),
                        cursor: 0,
                        metadata: file_metadata(top, m, f, psshes),
                        duration_micros: movie_micros(m),
                        sidxes: top.sidxes,
                        ssixes: top.ssixes,
                        tfras: top.tfras,
                        prfts: top.prfts,
                        pdin: top.pdin,
                        leva: m.leva,
                        treps: m.treps,
                        psshes: m.psshes,
                        moof_psshes: psshes,
                        senc_records: f.sencs,
                        sai_records: f.sais,
                        movie_timescale: m.movie_timescale,
                        track_timescales: Seq::new(m.tracks.len(), |i: int| m.tracks[i].timescale),
                        track_ids: Seq::new(m.tracks.len(), |i: int| m.tracks[i].track_id),
                    },
                ),
            }
        },
    }
}

/// Expands the sample tables of all tracks.
fn expand_tracks(tracks: &Vec<Track>) -> (r: Result<Vec<SampleRef>>)
    ensures
        match table_samples(views(tracks@), 0, Seq::empty()) {
            (s, Ok(())) => r matches Ok(v) && v@ == s && tracks_below(s, tracks@.len()),
            (_, Err(e)) => r matches Err(e2) && e2 == e,
        },
{
    let ghost all = views(tracks@);
    let mut samples: Vec<SampleRef> = Vec::new();
    let mut i: usize = 0;
    proof { assert(samples@ =~= Seq::<SampleRef>::empty()); }
    while i < tracks.len()
        invariant
            i <= tracks@.len(),
            all == views(tracks@),
            tracks_below(samples@, tracks@.len()),
            table_samples(all, 0, Seq::empty()) == table_samples(all, i as int, samples@),
        decreases tracks@.len() - i,
    {
        let track_idx: u32 = length32(i, 0);
        let ghost before = samples@;
        assert(all[i as int] == tracks@[i as int]@);
        expand_samples(&tracks[i], track_idx, &mut samples)?;
        proof {
            let t = all[i as int];
            let p = placement(t.stsc, t.chunk_offsets.len(), t.stsz.len());
            law_expand_appends(t, track_idx, p, 0, before);
            assert forall|k: int| 0 <= k < samples@.len() implies (#[trigger] samples@[k]).track_idx < tracks@.len() by {
                if k < before.len() {
                    assert(samples@.subrange(0, before.len() as int)[k] == before[k]);
                }
            }
        }
        i += 1;
    }
    Ok(samples)
}

/// Finds the decode time that each track comes to behind its sample tables.
fn find_end_times(tracks: &Vec<Track>, samples: &Vec<SampleRef>) -> (r: Vec<i64>)
    requires
        tracks_below(samples@, tracks@.len()),
    ensures
        r@ == table_ends(views(tracks@), samples@),
        r@.len() == tracks@.len(),
{
    let ghost all = views(tracks@);
    let n: usize = tracks.len();
    let mut out: Vec<i64> = Vec::new();
    while out.len() < n
        invariant
            out@.len() <= n,
            out@ =~= Seq::new(out@.len(), |i: int| 0i64),
        decreases n - out@.len(),
    {
        out.push(0);
    }
    let mut i: usize = 0;
    while i < samples.len()
        invariant
            i <= samples@.len(),
            n == tracks@.len(),
            out@.len() == n,
            all == views(tracks@),
            tracks_below(samples@, n as nat),
            table_ends(all, samples@) == end_times(all, samples@, i as int, out@),
        decreases samples@.len() - i,
    {
        let s = samples[i];
        assert(samples@[i as int].track_idx < n);
        let idx: usize = s.track_idx as usize;
        assert(all[idx as int] == tracks@[idx as int]@);
        let shift: i64 = elst_leading_media_time(&tracks[idx]);
        let end: i64 = clamped(s.dts as i128 + shift as i128 + s.duration as i128);
        if end > out[idx] {
            out.set(idx, end);
        }
        i += 1;
    }
    out
}

/// What fragments have added.
pub struct Fragments {
    pub samples: Vec<SampleRef>,
    pub next_dts: Vec<i64>,
    pub senc_records: Vec<SencRecord>,
    pub sai_records: Vec<SaiRecord>,
    pub moof_psshes: Vec<MoofPsshRecord>,
}

impl Fragments {
    /// What fragments have added, but for protection systems.
    pub open spec fn frag(self) -> FragModel {
        frag_of(self.samples, self.next_dts, self.senc_records, self.sai_records)
    }
}

/// Adds what all fragments add.
fn add_fragments(moofs: &Vec<MoofRecord>, tracks: &Vec<Track>, f: &mut Fragments) -> (r: Result<()>)
    requires
        old(f).next_dts@.len() == tracks@.len(),
        tracks_below(old(f).samples@, tracks@.len()),
    ensures
        (final(f).frag(), views(final(f).moof_psshes@), r) == all_fragments(
            views(moofs@),
            0,
            old(f).frag(),
            views(old(f).moof_psshes@),
            views(tracks@),
        ),
        tracks_below(final(f).samples@, tracks@.len()),
{
    let ghost all = views(moofs@);
    let ghost f0 = old(f).frag();
    let ghost p0 = views(old(f).moof_psshes@);
    let n: usize = tracks.len();
    let mut i: usize = 0;
    while i < moofs.len()
        invariant
            i <= moofs@.len(),
            n == tracks@.len(),
            all == views(moofs@),
            f0 == old(f).frag(),
            p0 == views(old(f).moof_psshes@),
            f.next_dts@.len() == tracks@.len(),
            tracks_below(f.samples@, tracks@.len()),
            all_fragments(all, 0, f0, p0, views(tracks@)) == all_fragments(
                all,
                i as int,
                f.frag(),
                views(f.moof_psshes@),
                views(tracks@),
            ),
        decreases moofs@.len() - i,
    {
        proof {
            assert(all[i as int] == moofs@[i as int]@);
            law_moof_tracks(
                f.frag(),
                views(f.moof_psshes@),
                all[i as int].body,
                all[i as int].moof_start,
                views(tracks@),
            );
        }
        parse_moof(
            &moofs[i],
            tracks.as_slice(),
            &mut f.samples,
            &mut f.next_dts,
            &mut f.senc_records,
            &mut f.sai_records,
            &mut f.moof_psshes,
        )?;
        i += 1;
    }
    Ok(())
}

/// Builds the streams of all tracks.
fn build_streams(tracks: &Vec<Track>, codec_ids: &Vec<String>) -> (r: Vec<StreamInfo>)
    requires
        codec_ids@.len() == tracks@.len(),
    ensures
        views(r@) == Seq::new(
            tracks@.len(),
            |i: int| stream_of(low32(i), views(tracks@)[i], views(codec_ids@)[i]),
        ),
{
    let mut out: Vec<StreamInfo> = Vec::new();
    let mut i: usize = 0;
    while i < tracks.len()
        invariant
            i <= tracks@.len(),
            codec_ids@.len() == tracks@.len(),
            out@.len() == i,
            forall|k: int|
                0 <= k < i ==> (#[trigger] out@[k])@ == stream_of(low32(k), views(tracks@)[k], views(codec_ids@)[k]),
        decreases tracks@.len() - i,
    {
        let s = build_stream_info(length32(i, 0), &tracks[i], codec_ids[i].clone());
        out.push(s);
        i += 1;
    }
    proof {
        assert(views(out@) =~= Seq::new(
            tracks@.len(),
            |i: int| stream_of(low32(i), views(tracks@)[i], views(codec_ids@)[i]),
        ));
    }
    out
}

/// The timescale of each track.
fn timescales(tracks: &Vec<Track>) -> (r: Vec<u32>)
    ensures
        r@ == Seq::new(tracks@.len(), |i: int| views(tracks@)[i].timescale),
{
    let mut out: Vec<u32> = Vec::new();
    let mut i: usize = 0;
    while i < tracks.len()
        invariant
            i <= tracks@.len(),
            out@ =~= Seq::new(i as nat, |k: int| views(tracks@)[k].timescale),
        decreases tracks@.len() - i,
    {
        out.push(tracks[i].timescale);
        i += 1;
    }
    out
}

/// The number of each track.
fn numbers_of(tracks: &Vec<Track>) -> (r: Vec<u32>)
    ensures
        r@ == Seq::new(tracks@.len(), |i: int| views(tracks@)[i].track_id),
{
    let mut out: Vec<u32> = Vec::new();
    let mut i: usize = 0;
    while i < tracks.len()
        invariant
            i <= tracks@.len(),
            out@ =~= Seq::new(i as nat, |k: int| views(tracks@)[k].track_id),
        decreases tracks@.len() - i,
    {
        out.push(tracks[i].track_id);
        i += 1;
    }
    out
}

/// Opens a file: makes the demuxer from the boxes at its top, from its movie, and from the codec of
/// each track.
pub fn open(top: TopLevel, movie: ParsedMoov, codec_ids: &Vec<String>) -> (r: Result<Mp4Demuxer>)
    requires
        movie_of(top@) == Ok::<MovieModel, Error>(movie@),
        codec_ids@.len() == movie.tracks@.len(),
    ensures
        seen(r) == demux_of(top@, movie@, views(codec_ids@)),
        r matches Ok(d) ==> d@.wf(),
{
    let samples = expand_tracks(&movie.tracks)?;
    let next_dts = find_end_times(&movie.tracks, &samples);
    let mut f = Fragments {
        samples,
        next_dts,
        senc_records: Vec::new(),
        sai_records: Vec::new(),
        moof_psshes: Vec::new(),
    };
    proof {
        assert(f.frag().sencs =~= Seq::empty());
        assert(f.frag().sais =~= Seq::empty());
        assert(views(f.moof_psshes@) =~= Seq::<MoofPsshModel>::empty());
    }
    add_fragments(&top.moofs, &movie.tracks, &mut f)?;
    let ghost frag = f.frag();
    let ghost frag_psshes = views(f.moof_psshes@);
    proof {
        lemma_sorted_tracks(f.samples@, movie.tracks@.len());
        law_by_offset(f.samples@);
    }
    sort_by_offset(&mut f.samples);
    let duration_micros: i64 = duration_of(&movie);
    let streams = build_streams(&movie.tracks, codec_ids);
    let track_timescales = timescales(&movie.tracks);
    let track_ids = numbers_of(&movie.tracks);
    let mut metadata = movie.metadata;
    push_mehd(&mut metadata, movie.mehd_fragment_duration);
    push_pdin(&mut metadata, &top.pdin);
    push_leva(&mut metadata, &movie.leva);
    push_treps(&mut metadata, &movie.treps);
    push_prfts(&mut metadata, &top.prfts);
    push_ssixes(&mut metadata, &top.ssixes);
    push_psshes(&mut metadata, &movie.psshes);
    push_sencs(&mut metadata, &f.senc_records);
    push_sais(&mut metadata, &f.sai_records);
    push_moof_psshes(&mut metadata, &f.moof_psshes);
    proof { assert(views(metadata@) == file_metadata(top@, movie@, frag, frag_psshes)); }
    Ok(
        Mp4Demuxer {
            streams,
            samples: f.samples,
            cursor: 0,
            metadata,
            duration_micros,
            sidxes: top.sidxes,
            ssixes: top.ssixes,
            tfras: top.tfras,
            prfts: top.prfts,
            pdin: top.pdin,
            leva: movie.leva,
            treps: movie.treps,
            psshes: movie.psshes,
            moof_psshes: f.moof_psshes,
            senc_records: f.senc_records,
            sai_records: f.sai_records,
            movie_timescale: movie.movie_timescale,
            track_timescales,
            track_ids,
        },
    )
}

/// Whether each sample of the `k`th track ends before the next one of it is decoded, none before 0 in the
/// time of the media and none behind what 64 bits hold.
pub open spec fn in_turn(samples: Seq<SampleRef>, k: int, shift: i64) -> bool {
    &&& forall|a: int, b: int|
        0 <= a < b < samples.len() && (#[trigger] samples[a]).track_idx == k && (#[trigger] samples[b]).track_idx == k
            ==> samples[a].dts + samples[a].duration <= samples[b].dts
    &&& forall|a: int|
        0 <= a < samples.len() && (#[trigger] samples[a]).track_idx == k ==> {
            &&& samples[a].duration >= 0
            &&& 0 <= samples[a].dts + shift
            &&& samples[a].dts + shift + samples[a].duration <= i64::MAX
            &&& samples[a].dts + samples[a].duration <= i64::MAX
        }
}

/// Whether the times of the sample tables of a track fit in 64 bits, before and behind the shift.
pub open spec fn times_fit(t: TrackModel) -> bool {
    let end = decode_time(t.stts, t.stsz.len() as int);
    end <= i64::MAX && end - leading_media_time(t.elst) <= i64::MAX
}

proof fn lemma_block_in_turn(t: TrackModel, k: int, acc: Seq<SampleRef>)
    requires
        times_fit(t),
        0 <= k <= u32::MAX,
        tracks_below(acc, k as nat),
        expanded(t, k as u32, acc).1 is Ok,
    ensures
        in_turn(expanded(t, k as u32, acc).0, k, leading_media_time(t.elst)),
{
    let p = placement(t.stsc, t.chunk_offsets.len(), t.stsz.len());
    let n = t.stsz.len() as int;
    let m = acc.len() as int;
    let out = expanded(t, k as u32, acc).0;
    let shift = leading_media_time(t.elst);
    law_expand_appends(t, k as u32, p, 0, acc);
    assert forall|a: int| 0 <= a < out.len() && (#[trigger] out[a]).track_idx == k implies a >= m && out[a].dts + shift
        == decode_time(t.stts, a - m) && out[a].duration == sample_delta(t.stts, a - m) && 0 <= decode_time(
        t.stts,
        a - m,
    ) && decode_time(t.stts, a - m) + sample_delta(t.stts, a - m) <= decode_time(t.stts, n) by {
        if a < m {
            assert(out.subrange(0, m)[a] == acc[a]);
        } else {
            assert(out[a] == sample_at(t, k as u32, p, a - m));
            law_decode_times_ascend(t.stts, a - m, n);
            law_decode_times_ascend(t.stts, a - m + 1, n);
        }
    }
    assert forall|a: int, b: int|
        0 <= a < b < out.len() && (#[trigger] out[a]).track_idx == k && (#[trigger] out[b]).track_idx
            == k implies out[a].dts + out[a].duration <= out[b].dts by {
        law_decode_times_ascend(t.stts, a - m + 1, b - m);
    }
}

/// The samples of a track that others join stay in turn.
proof fn lemma_others_join(t: TrackModel, i: int, acc: Seq<SampleRef>, k: int, shift: i64)
    requires
        0 <= i <= u32::MAX,
        i != k,
        in_turn(acc, k, shift),
    ensures
        in_turn(expanded(t, i as u32, acc).0, k, shift),
{
    let p = placement(t.stsc, t.chunk_offsets.len(), t.stsz.len());
    let out = expanded(t, i as u32, acc).0;
    law_expand_appends(t, i as u32, p, 0, acc);
    assert forall|a: int| 0 <= a < out.len() && (#[trigger] out[a]).track_idx == k implies a < acc.len() && out[a]
        == acc[a] by {
        if a < acc.len() {
            assert(out.subrange(0, acc.len() as int)[a] == acc[a]);
        } else {
            assert(out[a] == sample_at(t, i as u32, p, a - acc.len()));
        }
    }
}

proof fn lemma_tables_in_turn(tracks: Seq<TrackModel>, i: int, acc: Seq<SampleRef>, k: int)
    requires
        0 <= i,
        0 <= k < tracks.len() <= 0x1_0000_0000,
        times_fit(tracks[k]),
        tracks_below(acc, i as nat),
        i > k ==> in_turn(acc, k, leading_media_time(tracks[k].elst)),
        table_samples(tracks, i, acc).1 is Ok,
    ensures
        i <= tracks.len() ==> in_turn(table_samples(tracks, i, acc).0, k, leading_media_time(tracks[k].elst)),
        i <= tracks.len() ==> tracks_below(table_samples(tracks, i, acc).0, tracks.len()),
    decreases tracks.len() - i,
{
    if i < tracks.len() {
        let t = tracks[i];
        let shift = leading_media_time(tracks[k].elst);
        let p = placement(t.stsc, t.chunk_offsets.len(), t.stsz.len());
        let out = expanded(t, i as u32, acc).0;
        law_expand_appends(t, i as u32, p, 0, acc);
        assert forall|a: int| 0 <= a < out.len() implies (#[trigger] out[a]).track_idx < i + 1 by {
            if a < acc.len() {
                assert(out.subrange(0, acc.len() as int)[a] == acc[a]);
            } else {
                assert(out[a] == sample_at(t, i as u32, p, a - acc.len()));
            }
        }
        if i == k {
            lemma_block_in_turn(t, k, acc);
        } else if i > k {
            lemma_others_join(t, i, acc, k, shift);
        }
        lemma_tables_in_turn(tracks, i + 1, out, k);
    }
}

/// What a track comes to behind samples in turn is where the last of its samples, the `j`th, ends.
proof fn lemma_end_of_last(tracks: Seq<TrackModel>, samples: Seq<SampleRef>, i: int, acc: Seq<i64>, k: int, j: int)
    requires
        0 <= i,
        0 <= k < tracks.len(),
        acc.len() == tracks.len(),
        tracks_below(samples, tracks.len()),
        in_turn(samples, k, leading_media_time(tracks[k].elst)),
        0 <= j < samples.len(),
        samples[j].track_idx == k,
        forall|l: int| j < l < samples.len() ==> (#[trigger] samples[l]).track_idx != k,
        acc[k] <= media_end(samples[j], tracks),
        i > j ==> acc[k] == media_end(samples[j], tracks),
    ensures
        end_times(tracks, samples, i, acc)[k] == media_end(samples[j], tracks),
    decreases samples.len() - i,
{
    if i < samples.len() {
        let x = samples[i].track_idx as int;
        let end = media_end(samples[i], tracks);
        if x == k && i < j {
            assert(samples[i].dts + samples[i].duration <= samples[j].dts);
        }
        lemma_end_of_last(tracks, samples, i + 1, if end > acc[x] { acc.update(x, end) } else { acc }, k, j);
    }
}

/// A track fragment without a decode time of its own that follows the sample tables of its track goes on
/// where they end: its first sample is decoded when the last sample of the tables, the `j`th of all, ends.
pub proof fn law_tables_continue(
    tracks: Seq<TrackModel>,
    j: int,
    f: FragModel,
    b: Seq<u8>,
    moof_start: u64,
    sequence: u32,
)
    requires
        tracks.len() <= 0x1_0000_0000,
        table_samples(tracks, 0, Seq::empty()).1 is Ok,
        0 <= j < table_samples(tracks, 0, Seq::empty()).0.len(),
        traf_of(f, b, moof_start, tracks, sequence).1 is Ok,
        traf_of(f, b, moof_start, tracks, sequence).0.samples.len() > f.samples.len(),
        ({
            let samples = table_samples(tracks, 0, Seq::empty()).0;
            let st = scan_from(b, 0, no_scan(), moof_start, tracks).0.state;
            let k = st.track_idx as int;
            &&& k < tracks.len()
            &&& times_fit(tracks[k])
            &&& st.base_media_decode_time is None
            &&& f.next_dts.len() == tracks.len()
            &&& f.next_dts[k] == table_ends(tracks, samples)[k]
            &&& samples[j].track_idx == k
            &&& forall|l: int| j < l < samples.len() ==> (#[trigger] samples[l]).track_idx != k
        }),
    ensures
        ({
            let last = table_samples(tracks, 0, Seq::empty()).0[j];
            traf_of(f, b, moof_start, tracks, sequence).0.samples[f.samples.len() as int].dts == last.dts + last.duration
        }),
{
    let samples = table_samples(tracks, 0, Seq::empty()).0;
    let k = scan_from(b, 0, no_scan(), moof_start, tracks).0.state.track_idx as int;
    let zeros = Seq::new(tracks.len(), |i: int| 0i64);
    lemma_tables_in_turn(tracks, 0, Seq::empty(), k);
    lemma_end_of_last(tracks, samples, 0, zeros, k, j);
    law_traf_starts(f, b, moof_start, tracks, sequence);
}

proof fn lemma_push_starts(m: Metadata, start: Metadata, x: (Seq<char>, Seq<char>))
    requires
        starts_with(m, start),
    ensures
        starts_with(m.push(x), start),
{
    assert(m.push(x).subrange(0, start.len() as int) =~= m.subrange(0, start.len() as int));
}

proof fn lemma_rows_start<T>(m: Metadata, rows: Seq<T>, i: int, name: Seq<char>, f: spec_fn(T) -> Seq<char>, start: Metadata)
    requires
        starts_with(m, start),
    ensures
        starts_with(each_meta(m, rows, i, name, f), start),
    decreases rows.len() - i,
{
    if i < rows.len() {
        let x = (numbered(name, i), f(rows[i]));
        lemma_push_starts(m, start, x);
        lemma_rows_start(m.push(x), rows, i + 1, name, f, start);
    }
}

/// The metadata of a file starts with that of its movie.
pub proof fn law_metadata_extends(top: TopModel, m: MovieModel, f: FragModel, psshes: Seq<MoofPsshModel>)
    ensures
        starts_with(file_metadata(top, m, f, psshes), m.metadata),
{
    let s = m.metadata;
    assert(s.subrange(0, s.len() as int) =~= s);
    let m1 = mehd_meta(s, m.mehd_fragment_duration);
    if let Some(d) = m.mehd_fragment_duration {
        lemma_push_starts(s, s, ("mehd_fragment_duration"@, dec(d as nat)));
    }
    let m2 = pdin_meta(m1, top.pdin);
    if let Some(rows) = top.pdin {
        let x = ("pdin_count"@, dec(rows.len()));
        lemma_push_starts(m1, s, x);
        lemma_rows_start(m1.push(x), rows, 0, "pdin_"@, |e: PdinEntry| pdin_text(e), s);
    }
    let m3 = leva_meta(m2, m.leva);
    if let Some(rows) = m.leva {
        let x = ("leva_count"@, dec(rows.len()));
        lemma_push_starts(m2, s, x);
        lemma_rows_start(m2.push(x), rows, 0, "leva_"@, |e: LevaEntry| leva_text(e), s);
    }
    lemma_rows_start(m3, m.treps, 0, "trep_"@, |t: TrepModel| trep_text(t), s);
    let m4 = trep_meta(m3, m.treps, 0);
    lemma_rows_start(m4, top.prfts, 0, "prft_"@, |p: PrftRecord| prft_text(p), s);
    let m5 = prft_meta(m4, top.prfts, 0);
    lemma_rows_start(m5, top.ssixes, 0, "ssix_"@, |s: Seq<Seq<SsixRange>>| ssix_text(s), s);
    let m6 = ssix_meta(m5, top.ssixes, 0);
    lemma_rows_start(m6, m.psshes, 0, "pssh_"@, |p: PsshModel| pssh_text(p), s);
    let m7 = pssh_meta(m6, m.psshes, 0);
    lemma_rows_start(m7, f.sencs, 0, "senc_"@, |r: SencRecordModel| senc_text(r), s);
    let m8 = senc_meta(m7, f.sencs, 0);
    lemma_rows_start(m8, f.sais, 0, "frag_sai_"@, |r: SaiRecordModel| sai_text(r), s);
    let m9 = sai_meta(m8, f.sais, 0);
    lemma_rows_start(m9, psshes, 0, "moof_pssh_"@, |r: MoofPsshModel| moof_pssh_text(r), s);
}

}
