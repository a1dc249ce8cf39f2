//! What is written: brands, the boxes of the header, and what the boxes of a fragment share between samples.
use vstd::prelude::*;
use vstd::utf8::encode_utf8;
use crate::boxes::boxed;
use crate::boxlaws::{rows, two};
use crate::bytes::{enc24, enc32, enc64};
use crate::childlaws::{box_list, Part};
use crate::codelaws::{law_codes, name};
use crate::emsg::{cstring_at, emsg_payload, EmsgModel, EmsgTime};
use crate::error::{Detail, Error};
use crate::flags::SampleFlags;
use crate::frag::{
    all_flags, brand_payload, codes_bytes, defaults_for, ftyp_bytes, init_moov_bytes, mfhd_payload, styp_bytes,
    tfdt_payload, tfhd_flags, traks_from, trexes_from, trun_flags, BrandModel, BrandPreset, FragTrackModel,
    FragmentDefaults, PendingModel,
};
use crate::index::{enc_ranges, enc_subsegments, ssix_payload, SsixRange};
use crate::layoutlaws::bit;
use crate::muxer::{fragment_bytes, header_of, tracks_data, MuxModel};
use crate::numbers::{clamp64, clamp_u64, low32, wrap64, wrap_u64};

verus! {

/// What a brand box says: the major brand, a version, and the compatible brands, in order.
pub proof fn law_brand(b: BrandModel, minor: u32, i: int)
    requires
        0 <= i < b.compatible.len(),
    ensures
        brand_payload(b, minor).len() == 8 + 4 * b.compatible.len(),
        brand_payload(b, minor).subrange(0, 4) == b.major@,
        brand_payload(b, minor).subrange(4, 8) == enc32(minor),
        brand_payload(b, minor).subrange(8 + 4 * i, 12 + 4 * i) == b.compatible[i]@,
{
    let h = Seq::<u8>::empty() + b.major@ + enc32(minor);
    lemma_codes(h, b.compatible, 0, i);
    let p = brand_payload(b, minor);
    assert(p.subrange(0, 4) =~= p.take(8).subrange(0, 4));
    assert(p.subrange(4, 8) =~= p.take(8).subrange(4, 8));
    assert(h.subrange(0, 4) =~= b.major@);
    assert(h.subrange(4, 8) =~= enc32(minor));
}

proof fn lemma_codes(acc: Seq<u8>, codes: Seq<[u8; 4]>, j: int, i: int)
    requires
        0 <= j <= codes.len(),
        0 <= i < codes.len(),
    ensures
        ({
            let c = codes_bytes(acc, codes, j);
            let n = acc.len() as int;
            &&& c.len() == n + 4 * (codes.len() - j)
            &&& c.take(n) == acc
            &&& j <= i ==> c.subrange(n + 4 * (i - j), n + 4 * (i - j) + 4) == codes[i]@
        }),
    decreases codes.len() - j,
{
    if j < codes.len() {
        let acc2 = acc + codes[j]@;
        lemma_codes(acc2, codes, j + 1, i);
        let c = codes_bytes(acc, codes, j);
        let n = acc.len() as int;
        assert(c.take(n) =~= c.take(n + 4).take(n));
        assert(acc2.take(n) =~= acc);
        if i == j {
            assert(c.subrange(n, n + 4) =~= c.take(n + 4).subrange(n, n + 4));
            assert(acc2.subrange(n, n + 4) =~= codes[j]@);
        }
    } else {
        assert(acc.take(acc.len() as int) =~= acc);
    }
}

/// The file type box has the brands, and a version that is not 0 for the plain brand alone; a segment type box has
/// the brands too.
pub proof fn law_brand_boxes(b: BrandModel)
    ensures
        ftyp_bytes(b) == boxed(
            name('f', 't', 'y', 'p'),
            brand_payload(b, if b.preset == BrandPreset::Mp4 { 0x200 } else { 0 }),
        ),
        styp_bytes(b) == boxed(name('s', 't', 'y', 'p'), brand_payload(b, 0)),
{
    law_codes();
}

/// The track boxes of a header.
pub open spec fn track_parts(tracks: Seq<FragTrackModel>) -> Seq<Part> {
    Seq::new(tracks.len(), |i: int| (name('t', 'r', 'a', 'k'), tracks[i].tkhd + tracks[i].mdia))
}

/// The boxes of a header on the samples in fragments.
pub open spec fn defaults_parts(tracks: Seq<FragTrackModel>) -> Seq<Part> {
    Seq::new(
        tracks.len(),
        |i: int|
            (
                name('t', 'r', 'e', 'x'),
                enc32(0) + enc32(tracks[i].track_id) + enc32(1) + enc32(tracks[i].trex_default_sample_duration) + enc32(
                    tracks[i].trex_default_sample_size,
                ) + enc32(tracks[i].trex_default_sample_flags),
            ),
    )
}

proof fn lemma_list_push(parts: Seq<Part>, p: Part)
    ensures
        box_list(parts.push(p)) == box_list(parts) + boxed(p.0, p.1),
    decreases parts.len(),
{
    let all = parts.push(p);
    if parts.len() > 0 {
        assert(all.drop_first() =~= parts.drop_first().push(p));
        lemma_list_push(parts.drop_first(), p);
        assert(box_list(all) =~= box_list(parts) + boxed(p.0, p.1));
    } else {
        assert(all.drop_first().len() == 0);
        assert(box_list(all.drop_first()) =~= Seq::empty());
        assert(box_list(all) =~= box_list(parts) + boxed(p.0, p.1));
    }
}

proof fn lemma_tracks(acc: Seq<u8>, tracks: Seq<FragTrackModel>, i: int)
    requires
        0 <= i <= tracks.len(),
    ensures
        traks_from(acc + box_list(track_parts(tracks).take(i)), tracks, i) == acc + box_list(track_parts(tracks)),
    decreases tracks.len() - i,
{
    law_codes();
    let parts = track_parts(tracks);
    if i < tracks.len() {
        let b = acc + box_list(parts.take(i));
        assert(parts.take(i + 1) =~= parts.take(i).push(parts[i]));
        lemma_list_push(parts.take(i), parts[i]);
        assert(b + boxed(parts[i].0, parts[i].1) =~= acc + box_list(parts.take(i + 1)));
        lemma_tracks(acc, tracks, i + 1);
    } else {
        assert(parts.take(i) =~= parts);
    }
}

proof fn lemma_defaults(acc: Seq<u8>, tracks: Seq<FragTrackModel>, i: int)
    requires
        0 <= i <= tracks.len(),
    ensures
        trexes_from(acc + box_list(defaults_parts(tracks).take(i)), tracks, i) == acc + box_list(defaults_parts(tracks)),
    decreases tracks.len() - i,
{
    law_codes();
    let parts = defaults_parts(tracks);
    if i < tracks.len() {
        let b = acc + box_list(parts.take(i));
        assert(parts.take(i + 1) =~= parts.take(i).push(parts[i]));
        lemma_list_push(parts.take(i), parts[i]);
        assert(b + boxed(parts[i].0, parts[i].1) =~= acc + box_list(parts.take(i + 1)));
        lemma_defaults(acc, tracks, i + 1);
    } else {
        assert(parts.take(i) =~= parts);
    }
}

/// The movie box of a header: the movie header, a track box for each track, in order, and a box with the defaults of
/// each track, in order.
pub proof fn law_header_movie(mvhd: Seq<u8>, tracks: Seq<FragTrackModel>)
    ensures
        init_moov_bytes(mvhd, tracks) == boxed(
            name('m', 'o', 'o', 'v'),
            mvhd + box_list(track_parts(tracks)) + boxed(name('m', 'v', 'e', 'x'), box_list(defaults_parts(tracks))),
        ),
{
    law_codes();
    lemma_tracks(mvhd, tracks, 0);
    assert(track_parts(tracks).take(0) =~= Seq::empty());
    assert(mvhd + box_list(track_parts(tracks).take(0)) =~= mvhd);
    assert(Seq::<u8>::empty() + mvhd =~= mvhd);
    lemma_defaults(Seq::empty(), tracks, 0);
    assert(defaults_parts(tracks).take(0) =~= Seq::empty());
    assert(Seq::<u8>::empty() + box_list(defaults_parts(tracks).take(0)) =~= Seq::empty());
    assert(Seq::<u8>::empty() + box_list(defaults_parts(tracks)) =~= box_list(defaults_parts(tracks)));
}

/// A header is written once: the file type box, then the movie box.
pub proof fn law_header_once(m: MuxModel)
    ensures
        !m.header_written ==> header_of(m) == (
            MuxModel { header_written: true, ..m },
            Ok::<Seq<u8>, Error>(ftyp_bytes(m.brand) + init_moov_bytes(m.mvhd, m.tracks)),
        ),
        m.header_written ==> header_of(m).1 is Err && header_of(m).0 == m,
{
}

/// A fragment starts with a segment type box where one is wanted, and ends with the data of its samples; its number is
/// one more than that of the fragment before it.
pub proof fn law_fragment_bytes(m: MuxModel, tracks: Seq<FragTrackModel>)
    ensures
        ({
            let b = fragment_bytes(m, tracks);
            let d = boxed(name('m', 'd', 'a', 't'), tracks_data(Seq::empty(), tracks, 0));
            let s = match m.styp {
                Some(x) => styp_bytes(x),
                None => Seq::empty(),
            };
            let moof = crate::frag::moof_bytes(low32(m.sequence_number + 1), tracks);
            &&& b == s + moof + d
            &&& m.sequence_number < u32::MAX ==> low32(m.sequence_number + 1) == m.sequence_number + 1
        }),
{
    law_codes();
}

/// Whether all samples of a run from the `k`th on have the flags.
pub open spec fn share_flags(p: Seq<PendingModel>, k: int) -> bool {
    forall|i: int, j: int| k <= i < p.len() && k <= j < p.len() ==> (#[trigger] p[i]).flags == (#[trigger] p[j]).flags
}

/// What the samples of a fragment share is written once, in the header of their track fragment: a duration, a size, and
/// flags, which the first sample may have for itself.
pub proof fn law_fragment_defaults(p: Seq<PendingModel>)
    requires
        p.len() > 0,
    ensures
        ({
            let d = defaults_for(p);
            &&& d.homogeneous_duration is Some <==> forall|i: int| 0 <= i < p.len() ==> (#[trigger] p[i]).duration == p[0].duration
            &&& d.homogeneous_duration is Some ==> d.homogeneous_duration->Some_0 == p[0].duration
            &&& d.homogeneous_size is Some <==> forall|i: int| 0 <= i < p.len() ==> (#[trigger] p[i]).size() == p[0].size()
            &&& d.homogeneous_size is Some ==> d.homogeneous_size->Some_0 == p[0].size()
            &&& share_flags(p, 0) ==> d.homogeneous_flags == Some(p[0].flags) && !d.first_sample_distinct
            &&& !share_flags(p, 0) && share_flags(p, 1) && p.len() > 1 ==> d.homogeneous_flags == Some(p[1].flags)
                && d.first_sample_distinct && d.first_sample_flags == p[0].flags
            &&& !share_flags(p, 1) ==> d.homogeneous_flags is None && !d.first_sample_distinct
        }),
{
    let d = defaults_for(p);
    assert(p[0].flags == p[0].flags);
    if p.len() > 1 {
        assert(p[1].flags == p[1].flags);
    }
    assert(all_flags(p, 0, p[0].flags) <==> share_flags(p, 0));
    if p.len() > 1 {
        assert(all_flags(p, 1, p[1].flags) <==> share_flags(p, 1));
    }
}

/// The flags of a track fragment header announce which defaults follow, and that places count from the start of the
/// fragment; those of a run announce an offset, flags for the first sample, and what each row has.
pub proof fn law_fragment_flags(d: FragmentDefaults, offsets: bool)
    ensures
        bit(tfhd_flags(d), 0x2_0000),
        !bit(tfhd_flags(d), 1),
        bit(tfhd_flags(d), 8) == (d.homogeneous_duration is Some),
        bit(tfhd_flags(d), 0x10) == (d.homogeneous_size is Some),
        bit(tfhd_flags(d), 0x20) == (d.homogeneous_flags is Some),
        bit(trun_flags(d, offsets), 1),
        bit(trun_flags(d, offsets), 4) == d.first_sample_distinct,
        bit(trun_flags(d, offsets), 0x100) == (d.homogeneous_duration is None),
        bit(trun_flags(d, offsets), 0x200) == (d.homogeneous_size is None),
        bit(trun_flags(d, offsets), 0x400) == (d.homogeneous_flags is None),
        bit(trun_flags(d, offsets), 0x800) == offsets,
{
}

/// The decode time of a track fragment is written in 64 bits, and the number of a fragment behind a version with flags.
pub proof fn law_fragment_heads(time: u64, number: u32)
    ensures
        tfdt_payload(time) == seq![1u8, 0u8, 0u8, 0u8] + enc64(time),
        mfhd_payload(number) == seq![0u8, 0u8, 0u8, 0u8] + enc32(number),
{
    assert(tfdt_payload(time) =~= seq![1u8, 0u8, 0u8, 0u8] + enc64(time));
    assert(mfhd_payload(number) =~= seq![0u8, 0u8, 0u8, 0u8] + enc32(number));
}

/// Where the fields of sample flags stand in their word.
pub proof fn law_flag_fields(raw: u32)
    ensures
        ({
            let f = SampleFlags::of(raw);
            &&& raw % 0x1000_0000 == f.is_leading * 0x400_0000 + f.sample_depends_on * 0x100_0000 + f.sample_is_depended_on
                * 0x40_0000 + f.sample_has_redundancy * 0x10_0000 + f.sample_padding_value * 0x2_0000 + (
            if f.sample_is_non_sync_sample { 0x1_0000int } else { 0 }) + f.sample_degradation_priority
            &&& f.is_leading < 4
            &&& f.sample_depends_on < 4
            &&& f.sample_is_depended_on < 4
            &&& f.sample_has_redundancy < 4
            &&& f.sample_padding_value < 8
        }),
{
    crate::flags::law_word_of(raw);
}

/// A number that does not fit is taken for the nearest that does, or goes around.
pub proof fn law_ranges(x: int)
    ensures
        i64::MIN <= x <= i64::MAX ==> clamp64(x) == x && wrap64(x) == x,
        x > i64::MAX ==> clamp64(x) == i64::MAX,
        x < i64::MIN ==> clamp64(x) == i64::MIN,
        0 <= x <= u64::MAX ==> clamp_u64(x) == x && wrap_u64(x) == x,
        x > u64::MAX ==> clamp_u64(x) == u64::MAX,
        x < 0 ==> clamp_u64(x) == 0,
        (wrap64(x) - x) % 0x1_0000_0000_0000_0000 == 0,
        (wrap_u64(x) - x) % 0x1_0000_0000_0000_0000 == 0,
        (low32(x) - x) % 0x1_0000_0000 == 0,
{
}

/// How an event message is laid out: its texts are ended by zeros, and stand in front of the numbers where its time
/// counts from the segment, and behind them where it is a time of the presentation.
pub proof fn law_emsg_layout(e: EmsgModel)
    ensures
        ({
            let texts = encode_utf8(e.scheme_id_uri) + seq![0u8] + encode_utf8(e.value) + seq![0u8];
            let ends = two(e.event_duration, e.id);
            &&& e.presentation matches EmsgTime::Delta(delta) ==> emsg_payload(e) == seq![0u8, 0u8, 0u8, 0u8] + texts + two(
                e.timescale,
                delta,
            ) + ends + e.message_data
            &&& e.presentation matches EmsgTime::Absolute(time) ==> emsg_payload(e) == seq![1u8, 0u8, 0u8, 0u8] + enc32(
                e.timescale,
            ) + enc64(time) + ends + texts + e.message_data
        }),
{
    let texts = encode_utf8(e.scheme_id_uri) + seq![0u8] + encode_utf8(e.value) + seq![0u8];
    let ends = two(e.event_duration, e.id);
    match e.presentation {
        EmsgTime::Delta(delta) => {
            assert(emsg_payload(e) =~= seq![0u8, 0u8, 0u8, 0u8] + texts + two(e.timescale, delta) + ends + e.message_data);
        },
        EmsgTime::Absolute(time) => {
            assert(emsg_payload(e) =~= seq![1u8, 0u8, 0u8, 0u8] + enc32(e.timescale) + enc64(time) + ends + texts
                + e.message_data);
        },
    }
}

/// The bytes of a subsegment: how many ranges it has, and of each the level and the size.
pub open spec fn subsegment_layout(s: Seq<SsixRange>) -> Seq<u8> {
    enc32(s.len() as u32) + rows(s.len() as int, |j: int| seq![s[j].level] + enc24(s[j].range_size))
}

/// How a subsegment index is laid out: how many subsegments it has, and each of them.
pub proof fn law_ssix_layout(x: Seq<Seq<SsixRange>>)
    requires
        x.len() <= u32::MAX,
        forall|i: int| 0 <= i < x.len() ==> (#[trigger] x[i]).len() <= u32::MAX,
    ensures
        ssix_payload(x) == seq![0u8, 0u8, 0u8, 0u8] + enc32(x.len() as u32) + rows(
            x.len() as int,
            |i: int| subsegment_layout(x[i]),
        ),
{
    let n = x.len() as int;
    lemma_subsegments(x, n);
    assert(x.take(n) =~= x);
    assert(enc32(0) =~= seq![0u8, 0u8, 0u8, 0u8]);
}

proof fn lemma_subsegments(x: Seq<Seq<SsixRange>>, n: int)
    requires
        0 <= n <= x.len(),
        forall|i: int| 0 <= i < x.len() ==> (#[trigger] x[i]).len() <= u32::MAX,
    ensures
        enc_subsegments(x.take(n)) == rows(n, |i: int| subsegment_layout(x[i])),
    decreases n,
{
    if n > 0 {
        lemma_subsegments(x, n - 1);
        assert(x.take(n).drop_last() =~= x.take(n - 1));
        let s = x[n - 1];
        lemma_ranges(s, s.len() as int);
        assert(s.take(s.len() as int) =~= s);
        assert(s.len() <= u32::MAX);
    }
}

proof fn lemma_ranges(s: Seq<SsixRange>, n: int)
    requires
        0 <= n <= s.len(),
    ensures
        enc_ranges(s.take(n)) == rows(n, |j: int| seq![s[j].level] + enc24(s[j].range_size)),
    decreases n,
{
    if n > 0 {
        lemma_ranges(s, n - 1);
        assert(s.take(n).drop_last() =~= s.take(n - 1));
        let a = enc_ranges(s.take(n - 1));
        assert(a.push(s[n - 1].level) + enc24(s[n - 1].range_size) =~= a + (seq![s[n - 1].level] + enc24(
            s[n - 1].range_size,
        )));
    }
}

/// A text of an event message that does not start within the message, and one that no zero ends, are refused.
pub proof fn law_text_refused(b: Seq<u8>, p: int, what: &'static str)
    requires
        0 <= p,
    ensures
        p > b.len() ==> cstring_at(b, p, what) == Err::<(Seq<char>, int), Error>(
            Error::InvalidData(Detail::EmsgTruncatedBefore(what)),
        ),
        p <= b.len() && (forall|i: int| p <= i < b.len() ==> #[trigger] b[i] != 0) ==> cstring_at(b, p, what) == Err::<
            (Seq<char>, int),
            Error,
        >(Error::InvalidData(Detail::EmsgUnterminated(what))),
{
    if p <= b.len() {
        let rest = b.subrange(p, b.len() as int);
        crate::textlaws::law_first_nul(rest);
        let n = crate::text::first_nul(rest);
        if n < rest.len() {
            assert(rest[n] == b[p + n]);
        }
    }
}

}
