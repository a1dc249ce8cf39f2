//! What a file comes to when it is opened: what each box is taken for, the streams and their samples.
use vstd::prelude::*;
use crate::boxes::{walk, BoxHeader, Child};
use crate::bytes::{be32, enc32};
use crate::cenc::{pssh_of, senc_of, PsshModel};
use crate::childlaws::{
    box_list, each_part, each_part_lenient, law_lenient_in_order, law_walk_in_order, part_child, Part,
};
use crate::codelaws::{law_codes, name};
use crate::demux::{by_offset, demux_of, end_times, media_end, movie_length, movie_micros, table_ends, table_samples};
use crate::error::Error;
use crate::fragment::{
    moof_from, moof_of, moof_psshes_of, moof_step, no_scan, number_from, number_step, scan_from, traf_of, FragModel,
    MoofModel, MoofPsshModel, MoofScan, SaiRecordModel, SencRecordModel,
};
use crate::index::{leva_of, mfra_from, pdin_of, prft_of, sidx_of, ssix_of, trep_of};
use crate::layoutlaws::{at, lemma_at32, lemma_peel, lemma_whole};
use crate::meta::{
    ilst_from, ilst_key, ilst_step, item_from, item_step, meta_from, meta_of, meta_step, udta_from, udta_key, udta_step,
    Metadata,
};
use crate::movie::{mehd_of, moov_step, mvex_from, mvex_step, mvhd_of, trex_of, ExtendsModel, MovieModel};
use crate::numbers::clamp64;
use crate::samples::SampleRef;
use crate::stream::stream_of;
use crate::tables::vmhd_of;
use crate::text::{decoded_text, trimmed, utf8_lossy};
use crate::toplevel::{file_from, top_body, top_header, TopModel};
use crate::track::{MediaType, TrackModel};
use crate::trak::{
    cprt_of, edts_from, edts_step, elng_of, elst_of, hdlr_of, kind_of, leading_media_time, mdhd_of, mdia_from,
    mdia_step, minf_from, minf_step, stbl_from, strk_of, tkhd_of, track_udta_from, track_udta_step, trak_of, trak_step,
    tref_from, trgr_from, tsel_of,
};

verus! {

/// The duration of a movie in microseconds is its length in its timescale, put into microseconds and rounded down.
/// The length is that of its fragments where it is given, else that in its header.
pub proof fn law_movie_micros(m: MovieModel, length: u64)
    requires
        m.mehd_fragment_duration is Some && m.mehd_fragment_duration->Some_0 > 0 ==> length
            == m.mehd_fragment_duration->Some_0,
        m.mehd_fragment_duration is None || m.mehd_fragment_duration->Some_0 == 0 ==> length == m.movie_duration,
        length * 1_000_000 < 0x7FFF_FFFF_FFFF_FFFF,
    ensures
        m.movie_timescale == 0 || length == 0 ==> movie_micros(m) == 0,
        m.movie_timescale > 0 ==> movie_micros(m) * m.movie_timescale <= length * 1_000_000 < (movie_micros(m) + 1)
            * m.movie_timescale,
{
    assert(movie_length(m) == length);
    let n = length * 1_000_000;
    let s = m.movie_timescale as int;
    if s > 0 {
        let q = n / s;
        assert(q * s <= n < (q + 1) * s && 0 <= q <= n) by (nonlinear_arith)
            requires q == n / s, s > 0, n >= 0;
        if length == 0 {
            assert(movie_micros(m) == 0);
        } else {
            assert(movie_micros(m) == q);
        }
    }
}

/// A stream is that of its track: the timescale, where the track has one, the duration, and the format.
pub proof fn law_stream_of_track(index: u32, t: TrackModel, id: Seq<char>)
    ensures
        ({
            let s = stream_of(index, t, id);
            &&& s.index == index
            &&& t.timescale > 0 ==> s.timescale == t.timescale
            &&& t.timescale == 0 ==> s.timescale == 1
            &&& t.duration is None ==> s.duration is None
            &&& t.duration is Some && t.duration->Some_0 <= i64::MAX ==> s.duration is Some && s.duration->Some_0
                == t.duration->Some_0
            &&& s.start_time == Some(0i64)
            &&& s.codec_id == id
            &&& s.channels == t.channels
            &&& s.sample_rate == t.sample_rate
            &&& s.width == t.width
            &&& s.height == t.height
            &&& s.extradata == t.extradata
            &&& t.media_type != MediaType::Unknown ==> s.media_type == t.media_type
            &&& t.media_type == MediaType::Unknown ==> s.media_type == MediaType::Data
        }),
{
}

/// An opened file has a stream for each track, in order, and what its boxes say; the first sample is the next
/// one to be read.
pub proof fn law_opened(top: TopModel, m: MovieModel, ids: Seq<Seq<char>>)
    requires
        demux_of(top, m, ids) is Ok,
        m.tracks.len() <= u32::MAX,
    ensures
        ({
            let d = demux_of(top, m, ids)->Ok_0;
            let n = m.tracks.len() as int;
            &&& d.streams.len() == n && d.track_ids.len() == n && d.track_timescales.len() == n
            &&& forall|i: int| 0 <= i < n ==> #[trigger] d.track_ids[i] == m.tracks[i].track_id
            &&& forall|i: int| 0 <= i < n ==> #[trigger] d.track_timescales[i] == m.tracks[i].timescale
            &&& d.cursor == 0
            &&& d.sidxes == top.sidxes
            &&& d.ssixes == top.ssixes
            &&& d.tfras == top.tfras
            &&& d.prfts == top.prfts
            &&& d.pdin == top.pdin
            &&& d.leva == m.leva
            &&& d.treps == m.treps
            &&& d.psshes == m.psshes
            &&& d.movie_timescale == m.movie_timescale
            &&& d.duration_micros == movie_micros(m)
        }),
{
}

/// The stream of a track of an opened file has the track's place and is made of it.
#[verifier::rlimit(100)]
pub proof fn law_opened_stream(top: TopModel, m: MovieModel, ids: Seq<Seq<char>>, i: int)
    requires
        demux_of(top, m, ids) is Ok,
        m.tracks.len() <= u32::MAX,
        0 <= i < m.tracks.len(),
    ensures
        demux_of(top, m, ids)->Ok_0.streams[i] == stream_of(i as u32, m.tracks[i], ids[i]),
{
    let tracks = m.tracks;
    let f = |i: int| stream_of(crate::numbers::low32(i), tracks[i], ids[i]);
    let s = Seq::new(tracks.len(), f);
    assert(crate::numbers::low32(i) == i as u32);
    assert(s[i] == f(i));
    assert(demux_of(top, m, ids)->Ok_0.streams =~= s);
}

/// The samples of an opened file without fragments are those of its sample tables, in order of their place in the
/// file.
pub proof fn law_opened_samples(top: TopModel, m: MovieModel, ids: Seq<Seq<char>>)
    requires
        demux_of(top, m, ids) is Ok,
        top.moofs.len() == 0,
    ensures
        ({
            let d = demux_of(top, m, ids)->Ok_0;
            &&& d.samples.to_multiset() == table_samples(m.tracks, 0, Seq::empty()).0.to_multiset()
            &&& forall|i: int, j: int| 0 <= i < j < d.samples.len() ==> (#[trigger] d.samples[i]).offset <= (
            #[trigger] d.samples[j]).offset
        }),
{
    let samples = table_samples(m.tracks, 0, Seq::empty()).0;
    crate::demux::law_by_offset(samples);
    assert(demux_of(top, m, ids)->Ok_0.samples == by_offset(samples));
}

/// What each box at the top of a file is taken for. The places in a segment index count from the end of its box, and
/// those in a fragment from the start of its box.
pub proof fn law_top_boxes(m: TopModel, h: BoxHeader, start: u64, d: Seq<u8>)
    requires
        h.header_len <= start,
        start + d.len() <= u64::MAX,
    ensures
        h.kind == name('m', 'o', 'o', 'v') ==> top_body(m, h, start, d) == (
            TopModel { moov: Some(d), ..m },
            Ok::<(), Error>(()),
        ),
        h.kind == name('s', 'i', 'd', 'x') && sidx_of(d, (start + d.len()) as u64) is Ok ==> top_body(m, h, start, d) == (
            TopModel { sidxes: m.sidxes.push(sidx_of(d, (start + d.len()) as u64)->Ok_0), ..m },
            Ok::<(), Error>(()),
        ),
        h.kind == name('m', 'o', 'o', 'f') ==> top_body(m, h, start, d) == (
            TopModel {
                moofs: m.moofs.push(MoofModel { moof_start: (start - h.header_len) as u64, body: d }),
                ..m
            },
            Ok::<(), Error>(()),
        ),
        h.kind == name('s', 's', 'i', 'x') && ssix_of(d) is Ok ==> top_body(m, h, start, d) == (
            TopModel { ssixes: m.ssixes.push(ssix_of(d)->Ok_0), ..m },
            Ok::<(), Error>(()),
        ),
        h.kind == name('p', 'd', 'i', 'n') && pdin_of(d) is Ok && m.pdin is None ==> top_body(m, h, start, d) == (
            TopModel { pdin: Some(pdin_of(d)->Ok_0), ..m },
            Ok::<(), Error>(()),
        ),
        h.kind == name('p', 'd', 'i', 'n') && m.pdin is Some ==> top_body(m, h, start, d) == (m, Ok::<(), Error>(())),
        h.kind == name('s', 'i', 'd', 'x') && sidx_of(d, (start + d.len()) as u64) is Err ==> top_body(m, h, start, d).1 is Err,
        h.kind == name('s', 's', 'i', 'x') && ssix_of(d) is Err ==> top_body(m, h, start, d) == (m, Ok::<(), Error>(())),
        h.kind == name('p', 'd', 'i', 'n') && pdin_of(d) is Err && m.pdin is None ==> top_body(m, h, start, d).1 is Err,
        h.kind == name('p', 'r', 'f', 't') && prft_of(d) is Err ==> top_body(m, h, start, d).1 is Err,
        h.kind == name('m', 'f', 'r', 'a') ==> top_body(m, h, start, d) == (
            TopModel { tfras: mfra_from(d, 0, m.tfras).0, ..m },
            mfra_from(d, 0, m.tfras).1,
        ),
        h.kind == name('p', 'r', 'f', 't') && prft_of(d) is Ok && prft_of(d)->Ok_0 is Some ==> top_body(m, h, start, d) == (
            TopModel { prfts: m.prfts.push(prft_of(d)->Ok_0->Some_0), ..m },
            Ok::<(), Error>(()),
        ),
{
    reveal(top_body);
    law_codes();
}

/// Which boxes at the top of a file are read: a file type box is noted, the others that are not read are passed over,
/// and a segment index or a fragment without a size is refused.
pub proof fn law_top_headers(m: TopModel, h: BoxHeader)
    ensures
        ({
            let read = set![
                name('p', 'd', 'i', 'n'), name('m', 'o', 'o', 'v'), name('s', 'i', 'd', 'x'), name('s', 's', 'i', 'x'),
                name('m', 'o', 'o', 'f'), name('m', 'f', 'r', 'a'), name('p', 'r', 'f', 't')
            ];
            let bound = h.kind == name('s', 'i', 'd', 'x') || h.kind == name('m', 'o', 'o', 'f');
            &&& h.kind == name('f', 't', 'y', 'p') ==> top_header(m, h) == (
                TopModel { saw_ftyp: true, ..m },
                Ok::<bool, Error>(false),
            )
            &&& bound && h.total_size is None ==> top_header(m, h).1 is Err
            &&& h.kind != name('f', 't', 'y', 'p') && !(bound && h.total_size is None) ==> top_header(m, h) == (
                m,
                Ok::<bool, Error>(read.contains(h.kind)),
            )
        }),
{
    law_codes();
}

/// A box in a container, whole.
pub open spec fn inner(code: u32, d: Seq<u8>) -> Child {
    part_child((code, d))
}

/// What each box of a movie box is taken for.
pub proof fn law_movie_boxes(m: MovieModel, d: Seq<u8>)
    ensures
        trak_of(d) is Ok && trak_of(d)->Ok_0 is Some ==> moov_step(m, inner(name('t', 'r', 'a', 'k'), d)) == (
            MovieModel { tracks: m.tracks.push(trak_of(d)->Ok_0->Some_0), ..m },
            Ok::<(), Error>(()),
        ),
        trak_of(d) is Ok && trak_of(d)->Ok_0 is None ==> moov_step(m, inner(name('t', 'r', 'a', 'k'), d)) == (
            m,
            Ok::<(), Error>(()),
        ),
        trak_of(d) is Err ==> moov_step(m, inner(name('t', 'r', 'a', 'k'), d)).1 is Err,
        moov_step(m, inner(name('m', 'v', 'h', 'd'), d)) == mvhd_of(m, d),
        moov_step(m, inner(name('u', 'd', 't', 'a'), d)) == (
            MovieModel { metadata: udta_from(d, 0, m.metadata), ..m },
            Ok::<(), Error>(()),
        ),
        moov_step(m, inner(name('m', 'e', 't', 'a'), d)) == (
            MovieModel { metadata: meta_of(m.metadata, d), ..m },
            Ok::<(), Error>(()),
        ),
        pssh_of(d) is Ok ==> moov_step(m, inner(name('p', 's', 's', 'h'), d)) == (
            MovieModel { psshes: m.psshes.push(pssh_of(d)->Ok_0), ..m },
            Ok::<(), Error>(()),
        ),
        pssh_of(d) is Err ==> moov_step(m, inner(name('p', 's', 's', 'h'), d)) == (m, Ok::<(), Error>(())),
{
    law_codes();
}

/// What each box of a movie extends box is taken for: of fragment durations and level assignments the first counts.
pub proof fn law_extends_boxes(s: ExtendsModel, d: Seq<u8>)
    ensures
        mvex_step(s, inner(name('t', 'r', 'e', 'x'), d)) == (
            ExtendsModel { tracks: trex_of(s.tracks, d).0, ..s },
            trex_of(s.tracks, d).1,
        ),
        mehd_of(d) is Ok && s.mehd_fragment_duration is None ==> mvex_step(s, inner(name('m', 'e', 'h', 'd'), d)) == (
            ExtendsModel { mehd_fragment_duration: Some(mehd_of(d)->Ok_0), ..s },
            Ok::<(), Error>(()),
        ),
        mehd_of(d) is Err || s.mehd_fragment_duration is Some ==> mvex_step(s, inner(name('m', 'e', 'h', 'd'), d)) == (
            s,
            Ok::<(), Error>(()),
        ),
        leva_of(d) is Ok && s.leva is None ==> mvex_step(s, inner(name('l', 'e', 'v', 'a'), d)) == (
            ExtendsModel { leva: Some(leva_of(d)->Ok_0), ..s },
            Ok::<(), Error>(()),
        ),
        leva_of(d) is Err || s.leva is Some ==> mvex_step(s, inner(name('l', 'e', 'v', 'a'), d)) == (s, Ok::<(), Error>(())),
        trep_of(d) is Err ==> mvex_step(s, inner(name('t', 'r', 'e', 'p'), d)) == (s, Ok::<(), Error>(())),
        trep_of(d) is Ok ==> mvex_step(s, inner(name('t', 'r', 'e', 'p'), d)) == (
            ExtendsModel { treps: s.treps.push(trep_of(d)->Ok_0), ..s },
            Ok::<(), Error>(()),
        ),
{
    law_codes();
}

/// What each box of a track box, of its media box and of its media information box is taken for.
pub proof fn law_track_boxes(t: TrackModel, media: bool, d: Seq<u8>)
    ensures
        trak_step((t, media), inner(name('t', 'k', 'h', 'd'), d)) == ((tkhd_of(t, d).0, media), tkhd_of(t, d).1),
        trak_step((t, media), inner(name('e', 'd', 't', 's'), d)) == (
            (edts_from(d, 0, t).0, media),
            edts_from(d, 0, t).1,
        ),
        trak_step((t, media), inner(name('t', 'r', 'e', 'f'), d)) == (
            (tref_from(d, 0, t).0, media),
            tref_from(d, 0, t).1,
        ),
        trak_step((t, media), inner(name('t', 'r', 'g', 'r'), d)) == (
            (trgr_from(d, 0, t).0, media),
            trgr_from(d, 0, t).1,
        ),
        trak_step((t, media), inner(name('u', 'd', 't', 'a'), d)) == (
            (track_udta_from(d, 0, t), media),
            Ok::<(), Error>(()),
        ),
        mdia_from(d, 0, t).1 is Ok ==> trak_step((t, media), inner(name('m', 'd', 'i', 'a'), d)) == (
            (mdia_from(d, 0, t).0, true),
            mdia_from(d, 0, t).1,
        ),
        mdia_from(d, 0, t).1 is Err ==> trak_step((t, media), inner(name('m', 'd', 'i', 'a'), d)).1 is Err,
        mdia_step(t, inner(name('m', 'd', 'h', 'd'), d)) == mdhd_of(t, d),
        mdia_step(t, inner(name('h', 'd', 'l', 'r'), d)) == hdlr_of(t, d),
        mdia_step(t, inner(name('e', 'l', 'n', 'g'), d)) == (elng_of(t, d), Ok::<(), Error>(())),
        mdia_step(t, inner(name('m', 'i', 'n', 'f'), d)) == minf_from(d, 0, t),
        minf_step(t, inner(name('s', 't', 'b', 'l'), d)) == stbl_from(d, 0, t),
        vmhd_of(d) is Ok && t.vmhd is None ==> minf_step(t, inner(name('v', 'm', 'h', 'd'), d)) == (
            TrackModel { vmhd: Some(vmhd_of(d)->Ok_0), ..t },
            Ok::<(), Error>(()),
        ),
        edts_step(t, inner(name('e', 'l', 's', 't'), d)) == elst_of(t, d),
        track_udta_step(t, inner(name('k', 'i', 'n', 'd'), d)) == kind_of(t, d),
        track_udta_step(t, inner(name('t', 's', 'e', 'l'), d)) == tsel_of(t, d),
        track_udta_step(t, inner(name('s', 't', 'r', 'k'), d)) == strk_of(t, d),
        track_udta_step(t, inner(name('c', 'p', 'r', 't'), d)) == cprt_of(t, d),
{
    law_codes();
}

/// What each box of a movie fragment is taken for: its number, its track fragments, and its protection systems.
pub proof fn law_fragment_boxes(s: MoofScan, d: Seq<u8>, moof_start: u64, tracks: Seq<TrackModel>)
    ensures
        d.len() >= 8 ==> moof_step(s, inner(name('m', 'f', 'h', 'd'), d), moof_start, tracks) == (
            MoofScan { sequence: be32(d, 4), ..s },
            Ok::<(), Error>(()),
        ),
        moof_step(s, inner(name('t', 'r', 'a', 'f'), d), moof_start, tracks) == (
            MoofScan { frag: traf_of(s.frag, d, moof_start, tracks, s.sequence).0, ..s },
            traf_of(s.frag, d, moof_start, tracks, s.sequence).1,
        ),
        moof_step(s, inner(name('p', 's', 's', 'h'), d), moof_start, tracks) == (
            MoofScan { psshes: s.psshes.push(d), ..s },
            Ok::<(), Error>(()),
        ),
{
    law_codes();
}

/// The encryption data of a track fragment is kept, with the track and the number of the fragment, where the track
/// is protected; it is read with the size of the vectors that the track gives. Auxiliary information is kept where
/// there is any.
pub proof fn law_fragment_records(f: FragModel, b: Seq<u8>, moof_start: u64, tracks: Seq<TrackModel>, sequence: u32)
    requires
        tracks.len() <= u32::MAX,
        traf_of(f, b, moof_start, tracks, sequence).1 is Ok,
        scan_from(b, 0, no_scan(), moof_start, tracks).0.state.track_idx < tracks.len(),
    ensures
        ({
            let scan = scan_from(b, 0, no_scan(), moof_start, tracks).0;
            let k = scan.state.track_idx;
            let tenc = tracks[k as int].tenc;
            let f2 = traf_of(f, b, moof_start, tracks, sequence).0;
            &&& scan.senc_body is None || tenc is None ==> f2.sencs == f.sencs
            &&& scan.senc_body is Some && tenc is Some ==> {
                let senc = senc_of(scan.senc_body->Some_0, tenc->Some_0.default_per_sample_iv_size);
                &&& senc is Err ==> f2.sencs == f.sencs
                &&& senc is Ok ==> f2.sencs == f.sencs.push(
                    SencRecordModel { track_idx: k as u32, moof_sequence: sequence, senc: senc->Ok_0 },
                )
            }
            &&& scan.saiz.len() == 0 && scan.saio.len() == 0 ==> f2.sais == f.sais
            &&& scan.saiz.len() > 0 || scan.saio.len() > 0 ==> f2.sais == f.sais.push(
                SaiRecordModel { track_idx: k as u32, moof_sequence: sequence, saiz: scan.saiz, saio: scan.saio },
            )
        }),
{
    reveal(traf_of);
}

/// The names of the items in a metadata list.
pub proof fn law_item_names()
    ensures
        ilst_key(name('\u{A9}', 'n', 'a', 'm')) == Some("title"),
        ilst_key(name('\u{A9}', 'A', 'R', 'T')) == Some("artist"),
        ilst_key(name('\u{A9}', 'a', 'l', 'b')) == Some("album"),
        ilst_key(name('\u{A9}', 'c', 'm', 't')) == Some("comment"),
        ilst_key(name('\u{A9}', 'g', 'e', 'n')) == Some("genre"),
        ilst_key(name('\u{A9}', 'd', 'a', 'y')) == Some("date"),
        ilst_key(name('\u{A9}', 'w', 'r', 't')) == Some("composer"),
        ilst_key(name('\u{A9}', 't', 'o', 'o')) == Some("encoder"),
        ilst_key(name('\u{A9}', 'c', 'p', 'y')) == Some("copyright"),
        ilst_key(name('c', 'p', 'r', 't')) == Some("copyright"),
        ilst_key(name('\u{A9}', 'l', 'y', 'r')) == Some("lyrics"),
        ilst_key(name('a', 'A', 'R', 'T')) == Some("album_artist"),
        ilst_key(name('t', 'r', 'k', 'n')) == Some("track"),
        ilst_key(name('d', 'i', 's', 'k')) == Some("disc"),
        ilst_key(name('d', 'e', 's', 'c')) == Some("description"),
        udta_key(name('t', 'i', 't', 'l')) == Some("title"),
        udta_key(name('a', 'u', 't', 'h')) == Some("artist"),
        udta_key(name('c', 'p', 'r', 't')) == Some("copyright"),
        udta_key(name('d', 's', 'c', 'p')) == Some("description"),
        udta_key(name('g', 'n', 'r', 'e')) == Some("genre"),
        udta_key(name('a', 'l', 'b', 'm')) == Some("album"),
        udta_key(name('y', 'r', 'r', 'c')) == Some("date"),
{
    law_codes();
}

/// An item of a metadata list: a box with a data box, whose text follows a kind and a locale.
pub open spec fn item_part(code: u32, pre: Seq<u8>, text: Seq<u8>) -> Part {
    (code, box_list(seq![(name('d', 'a', 't', 'a'), pre + text)]))
}

/// An item of a metadata list whose code has a name is metadata of that name: the text in it without white space
/// around it, where any is left. Other items are passed over.
pub proof fn law_metadata_item(m: Metadata, code: u32, pre: Seq<u8>, text: Seq<u8>)
    requires
        pre.len() == 8,
        text.len() > 0,
        8 + 8 + 8 + text.len() < 0x1_0000_0000,
    ensures
        ({
            let r = ilst_from(box_list(seq![item_part(code, pre, text)]), 0, m);
            let value = trimmed(utf8_lossy(text));
            &&& ilst_key(code) is None ==> r == m
            &&& ilst_key(code) is Some && value.len() > 0 ==> r == m.push((ilst_key(code)->Some_0@, value))
            &&& ilst_key(code) is Some && value.len() == 0 ==> r == m
        }),
{
    law_codes();
    let inside: Seq<Part> = seq![(name('d', 'a', 't', 'a'), pre + text)];
    let item = item_part(code, pre, text);
    let outer: Seq<Part> = seq![item];
    let d = inside[0].1;
    assert(d.subrange(8, d.len() as int) =~= text);
    crate::childlaws::lemma_first_part(Seq::empty(), inside);
    assert(Seq::<u8>::empty() + box_list(inside) =~= box_list(inside));
    assert(inside.drop_first().len() == 0);
    assert(box_list(inside).len() == 8 + d.len()) by {
        assert(box_list(inside.drop_first()).len() == 0);
    }
    let step = |m: Metadata, c: Child| ilst_step(m, c);
    law_lenient_in_order(outer, m, step);
    assert(outer.drop_first().len() == 0);
    let m1 = step(m, part_child(item));
    assert(each_part_lenient(outer.drop_first(), m1, step) == m1);
    assert(each_part_lenient(outer, m, step) == m1);
    if let Some(key) = ilst_key(code) {
        let k = key@;
        let step2 = |m: Metadata, c: Child| item_step(m, k, c);
        law_lenient_in_order(inside, m, step2);
        let m2 = step2(m, part_child(inside[0]));
        assert(each_part_lenient(inside.drop_first(), m2, step2) == m2);
        assert(each_part_lenient(inside, m, step2) == m2);
        assert(item_from(box_list(inside), 0, m, k) == m2);
    }
}

/// A user data box with a name is metadata of that name: the text behind its language, where there is any.
pub proof fn law_user_data(m: Metadata, code: u32, pre: Seq<u8>, text: Seq<u8>)
    requires
        pre.len() == 6,
        code != name('m', 'e', 't', 'a'),
    ensures
        ({
            let r = udta_step(m, inner(code, pre + text));
            let value = decoded_text(text);
            &&& udta_key(code) is None ==> r == m
            &&& udta_key(code) is Some && value.len() > 0 ==> r == m.push((udta_key(code)->Some_0@, value))
            &&& udta_key(code) is Some && value.len() == 0 ==> r == m
        }),
{
    law_codes();
    let d = pre + text;
    assert(d.subrange(6, d.len() as int) =~= text);
}

/// A metadata box holds its lists behind a version with flags, and a user data box holds metadata boxes.
pub proof fn law_metadata_box(m: Metadata, v: Seq<u8>, d: Seq<u8>)
    requires
        v.len() == 4,
    ensures
        meta_of(m, v + d) == meta_from(d, 0, m),
        meta_step(m, inner(name('i', 'l', 's', 't'), d)) == ilst_from(d, 0, m),
        udta_step(m, inner(name('m', 'e', 't', 'a'), v + d)) == meta_from(d, 0, m),
{
    law_codes();
    let b = v + d;
    assert(b.subrange(4, b.len() as int) =~= d);
}

/// A box at the end of a file whose size is 0 reaches to the end of the file.
pub proof fn law_file_open_box(f: Seq<u8>, pos: int, d: Seq<u8>, m: TopModel)
    requires
        f.len() <= u64::MAX,
        at(f, pos, enc32(0) + enc32(name('m', 'o', 'o', 'v')) + d),
        f.len() == pos + 8 + d.len(),
    ensures
        file_from(f, pos, m) == (TopModel { moov: Some(d), ..m }, Ok::<(), Error>(())),
{
    law_codes();
    let code = name('m', 'o', 'o', 'v');
    lemma_peel(f, pos, enc32(0) + enc32(code), d);
    lemma_peel(f, pos, enc32(0), enc32(code));
    lemma_at32(f, pos, 0);
    lemma_at32(f, pos + 4, code);
    reveal(top_body);
    assert(f.subrange(pos + 8, f.len() as int) =~= d);
    let m2 = TopModel { moov: Some(d), ..m };
    assert(file_from(f, f.len() as int, m2) == (m2, Ok::<(), Error>(())));
}

/// A box that is read must be there in full; one that is not read may go on behind the end of the file.
pub proof fn law_file_cut_box(f: Seq<u8>, pos: int, size: u32, code: u32, m: TopModel)
    requires
        at(f, pos, enc32(size) + enc32(code)),
        size >= 8,
        pos + size > f.len(),
    ensures
        code == name('m', 'o', 'o', 'v') || code == name('m', 'o', 'o', 'f') || code == name('s', 'i', 'd', 'x') ==> file_from(
            f,
            pos,
            m,
        ).1 is Err,
        code == name('m', 'd', 'a', 't') || code == name('f', 'r', 'e', 'e') ==> file_from(f, pos, m) == (
            m,
            Ok::<(), Error>(()),
        ),
{
    law_codes();
    lemma_peel(f, pos, enc32(size), enc32(code));
    lemma_at32(f, pos, size);
    lemma_at32(f, pos + 4, code);
    assert(file_from(f, f.len() as int, m) == (m, Ok::<(), Error>(())));
}

/// A movie fragment that has a number and protection systems adds these with its number.
pub proof fn law_fragment_systems(
    f: FragModel,
    psshes: Seq<MoofPsshModel>,
    v: Seq<u8>,
    number: u32,
    bodies: Seq<Seq<u8>>,
    x: Seq<PsshModel>,
    moof_start: u64,
    tracks: Seq<TrackModel>,
)
    requires
        v.len() == 4,
        x.len() == bodies.len(),
        forall|i: int| 0 <= i < x.len() ==> pssh_of(#[trigger] bodies[i]) == Ok::<PsshModel, Error>(x[i]) && bodies[i].len()
            < 0xFFFF_0000,
    ensures
        ({
            let parts = seq![(name('m', 'f', 'h', 'd'), v + enc32(number))] + Seq::new(
                bodies.len(),
                |i: int| (name('p', 's', 's', 'h'), bodies[i]),
            );
            moof_of(f, psshes, box_list(parts), moof_start, tracks) == (
                f,
                psshes + Seq::new(x.len(), |i: int| MoofPsshModel { moof_sequence: number, pssh: x[i] }),
                Ok::<(), Error>(()),
            )
        }),
{
    law_codes();
    let h = v + enc32(number);
    let tail = Seq::new(bodies.len(), |i: int| (name('p', 's', 's', 'h'), bodies[i]));
    let parts = seq![(name('m', 'f', 'h', 'd'), h)] + tail;
    let b = box_list(parts);
    lemma_whole(h);
    lemma_peel(h, 0, v, enc32(number));
    lemma_at32(h, 4, number);
    assert(parts.drop_first() =~= tail);
    assert forall|i: int| 0 <= i < parts.len() implies 8 + (#[trigger] parts[i]).1.len() < 0x1_0000_0000 by {
        if i > 0 {
            assert(parts[i] == tail[i - 1]);
            assert(bodies[i - 1].len() < 0xFFFF_0000);
        }
    }
    let count = |n: u32, c: Child| number_step(n, c);
    law_lenient_in_order(parts, 0u32, count);
    lemma_number_stays(tail, number);
    assert(each_part_lenient(parts, 0u32, count) == each_part_lenient(tail, number, count));
    assert(number_from(b, 0, 0) == number);
    let s0 = MoofScan { sequence: number, frag: f, psshes: Seq::empty() };
    let step = |s: MoofScan, c: Child| moof_step(s, c, moof_start, tracks);
    law_walk_in_order(parts, s0, step);
    assert(moof_from(b, 0, s0, moof_start, tracks) == walk(b, 0, s0, step));
    lemma_systems(bodies, s0, moof_start, tracks);
    assert(each_part(parts, s0, step) == each_part(tail, s0, step));
    assert(Seq::<Seq<u8>>::empty() + bodies =~= bodies);
    lemma_records(bodies, x, number, psshes);
}

proof fn lemma_number_stays(parts: Seq<Part>, n: u32)
    requires
        forall|i: int| 0 <= i < parts.len() ==> (#[trigger] parts[i]).0 == name('p', 's', 's', 'h'),
    ensures
        each_part_lenient(parts, n, |n: u32, c: Child| number_step(n, c)) == n,
    decreases parts.len(),
{
    law_codes();
    if parts.len() > 0 {
        let rest = parts.drop_first();
        assert(parts[0].0 == name('p', 's', 's', 'h'));
        assert forall|i: int| 0 <= i < rest.len() implies (#[trigger] rest[i]).0 == name('p', 's', 's', 'h') by {
            assert(rest[i] == parts[i + 1]);
        }
        lemma_number_stays(rest, n);
    }
}

proof fn lemma_systems(bodies: Seq<Seq<u8>>, s: MoofScan, moof_start: u64, tracks: Seq<TrackModel>)
    ensures
        each_part(
            Seq::new(bodies.len(), |i: int| (name('p', 's', 's', 'h'), bodies[i])),
            s,
            |s: MoofScan, c: Child| moof_step(s, c, moof_start, tracks),
        ) == (MoofScan { psshes: s.psshes + bodies, ..s }, Ok::<(), Error>(())),
    decreases bodies.len(),
{
    law_codes();
    let parts = Seq::new(bodies.len(), |i: int| (name('p', 's', 's', 'h'), bodies[i]));
    if bodies.len() > 0 {
        let rest = bodies.drop_first();
        let s2 = MoofScan { psshes: s.psshes.push(bodies[0]), ..s };
        lemma_systems(rest, s2, moof_start, tracks);
        assert(parts.drop_first() =~= Seq::new(rest.len(), |i: int| (name('p', 's', 's', 'h'), rest[i])));
        assert(s2.psshes + rest =~= s.psshes + bodies);
    } else {
        assert(s.psshes + bodies =~= s.psshes);
    }
}

proof fn lemma_records(bodies: Seq<Seq<u8>>, x: Seq<PsshModel>, number: u32, acc: Seq<MoofPsshModel>)
    requires
        x.len() == bodies.len(),
        forall|i: int| 0 <= i < x.len() ==> pssh_of(#[trigger] bodies[i]) == Ok::<PsshModel, Error>(x[i]),
    ensures
        moof_psshes_of(bodies, number, acc) == acc + Seq::new(
            x.len(),
            |i: int| MoofPsshModel { moof_sequence: number, pssh: x[i] },
        ),
    decreases bodies.len(),
{
    let all = Seq::new(x.len(), |i: int| MoofPsshModel { moof_sequence: number, pssh: x[i] });
    if bodies.len() > 0 {
        let rest = bodies.drop_first();
        let more = x.drop_first();
        let r0 = MoofPsshModel { moof_sequence: number, pssh: x[0] };
        assert(pssh_of(bodies[0]) == Ok::<PsshModel, Error>(x[0]));
        assert forall|i: int| 0 <= i < more.len() implies pssh_of(#[trigger] rest[i]) == Ok::<PsshModel, Error>(more[i]) by {
            assert(rest[i] == bodies[i + 1]);
        }
        lemma_records(rest, more, number, acc.push(r0));
        assert(acc.push(r0) + Seq::new(more.len(), |i: int| MoofPsshModel { moof_sequence: number, pssh: more[i] })
            =~= acc + all);
    } else {
        assert(acc + all =~= acc);
    }
}

/// When a track ends by its sample tables is when the last of its samples to end does; 0 where none ends later.
pub proof fn law_table_ends(tracks: Seq<TrackModel>, samples: Seq<SampleRef>, k: int, i: int)
    requires
        0 <= k < tracks.len(),
        0 <= i < samples.len(),
        samples[i].track_idx == k,
        forall|j: int| 0 <= j < samples.len() ==> (#[trigger] samples[j]).track_idx < tracks.len(),
    ensures
        ({
            let end = table_ends(tracks, samples)[k];
            &&& end >= 0
            &&& end >= clamp64(samples[i].dts + leading_media_time(tracks[k].elst) + samples[i].duration)
            &&& end > 0 ==> exists|j: int| 0 <= j < samples.len() && (#[trigger] samples[j]).track_idx == k && end == clamp64(
                samples[j].dts + leading_media_time(tracks[k].elst) + samples[j].duration,
            )
        }),
{
    lemma_end_times(tracks, samples, 0, Seq::new(tracks.len(), |i: int| 0i64), k);
}

proof fn lemma_end_times(tracks: Seq<TrackModel>, samples: Seq<SampleRef>, n: int, acc: Seq<i64>, k: int)
    requires
        0 <= k < tracks.len(),
        0 <= n <= samples.len(),
        acc.len() == tracks.len(),
        forall|j: int| 0 <= j < samples.len() ==> (#[trigger] samples[j]).track_idx < tracks.len(),
    ensures
        ({
            let end = end_times(tracks, samples, n, acc)[k];
            &&& end >= acc[k]
            &&& forall|j: int| n <= j < samples.len() && (#[trigger] samples[j]).track_idx == k ==> end >= clamp64(
                samples[j].dts + leading_media_time(tracks[k].elst) + samples[j].duration,
            )
            &&& end > acc[k] ==> exists|j: int| n <= j < samples.len() && (#[trigger] samples[j]).track_idx == k && end
                == clamp64(samples[j].dts + leading_media_time(tracks[k].elst) + samples[j].duration)
        }),
    decreases samples.len() - n,
{
    if n < samples.len() {
        let s = samples[n];
        let t = s.track_idx as int;
        let e = media_end(s, tracks);
        let acc2 = if e > acc[t] { acc.update(t, e) } else { acc };
        lemma_end_times(tracks, samples, n + 1, acc2, k);
        let end = end_times(tracks, samples, n, acc)[k];
        assert(end == end_times(tracks, samples, n + 1, acc2)[k]);
        if end > acc[k] && !(end > acc2[k]) {
            assert(t == k && samples[n].track_idx == k);
        }
    }
}

/// Boxes of other kinds are passed over, wherever they stand.
pub proof fn law_other_boxes(
    code: u32,
    d: Seq<u8>,
    m: MovieModel,
    x: ExtendsModel,
    t: TrackModel,
    media: bool,
    s: MoofScan,
    moof_start: u64,
)
    ensures
        ({
            let movie = set![
                name('t', 'r', 'a', 'k'), name('m', 'v', 'h', 'd'), name('u', 'd', 't', 'a'), name('m', 'e', 't', 'a'),
                name('m', 'v', 'e', 'x'), name('p', 's', 's', 'h')
            ];
            let extends = set![
                name('t', 'r', 'e', 'x'), name('m', 'e', 'h', 'd'), name('l', 'e', 'v', 'a'), name('t', 'r', 'e', 'p')
            ];
            let track = set![
                name('t', 'k', 'h', 'd'), name('m', 'd', 'i', 'a'), name('e', 'd', 't', 's'), name('t', 'r', 'e', 'f'),
                name('t', 'r', 'g', 'r'), name('u', 'd', 't', 'a')
            ];
            let inside = set![name('m', 'd', 'h', 'd'), name('e', 'l', 'n', 'g'), name('h', 'd', 'l', 'r'), name('m', 'i', 'n', 'f')];
            let user = set![name('k', 'i', 'n', 'd'), name('t', 's', 'e', 'l'), name('s', 't', 'r', 'k'), name('c', 'p', 'r', 't')];
            let done = Ok::<(), Error>(());
            &&& !movie.contains(code) ==> moov_step(m, inner(code, d)) == (m, done)
            &&& !extends.contains(code) ==> mvex_step(x, inner(code, d)) == (x, done)
            &&& !track.contains(code) ==> trak_step((t, media), inner(code, d)) == ((t, media), done)
            &&& !inside.contains(code) ==> mdia_step(t, inner(code, d)) == (t, done)
            &&& !user.contains(code) ==> track_udta_step(t, inner(code, d)) == t
            &&& code != name('s', 't', 'b', 'l') && code != name('v', 'm', 'h', 'd') ==> minf_step(t, inner(code, d)) == (t, done)
            &&& code != name('e', 'l', 's', 't') ==> edts_step(t, inner(code, d)) == (t, done)
            &&& code != name('m', 'f', 'h', 'd') && code != name('t', 'r', 'a', 'f') && code != name('p', 's', 's', 'h')
                ==> moof_step(s, inner(code, d), moof_start, m.tracks) == (s, done)
        }),
{
    law_codes();
}

/// The movie extends box is read into the movie that it stands in.
pub proof fn law_movie_extends(m: MovieModel, d: Seq<u8>)
    ensures
        ({
            let s = ExtendsModel {
                tracks: m.tracks,
                mehd_fragment_duration: m.mehd_fragment_duration,
                leva: m.leva,
                treps: m.treps,
            };
            let (s2, r) = mvex_from(d, 0, s);
            moov_step(m, inner(name('m', 'v', 'e', 'x'), d)) == (
                MovieModel {
                    tracks: s2.tracks,
                    mehd_fragment_duration: s2.mehd_fragment_duration,
                    leva: s2.leva,
                    treps: s2.treps,
                    ..m
                },
                r,
            )
        }),
{
    law_codes();
}

}
