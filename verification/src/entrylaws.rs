//! What a sample entry that is made of a preamble and boxes says of its track.
use vstd::prelude::*;
use crate::boxes::{walk, Child, Outcome};
use crate::bytes::{be16, be32, code_at, enc32, law_enc32_be32};
use crate::cenc::{tenc_of, TencModel};
use crate::childlaws::{box_list, each_part, law_walk_in_order, lemma_first_part, part_child, parts_fit, Part};
use crate::codelaws::name;
use crate::entries::{
    audio_entry, audio_from, audio_step, entry_protection, first_child, first_entry, sample_entry, sinf_from, sinf_of,
    sinf_step, stsd_of, stsd_row, stsd_rows, subtitle_entry, video_entry, video_from, video_step, Entry, SinfModel,
};
use crate::error::Error;
use crate::esdslaws::{descriptor_layout, law_descriptor_layout, DescriptorFields};
use crate::track::{MediaType, TrackModel};

verus! {

/// Whether no step over the boxes fails.
spec fn all_taken<S>(parts: Seq<Part>, step: spec_fn(S, Child) -> Outcome<S>) -> bool {
    forall|s: S, i: int| 0 <= i < parts.len() ==> (#[trigger] step(s, part_child(parts[i]))).1 == Ok::<(), Error>(())
}

/// Whether the boxes from the `j`th on change nothing.
spec fn idle_from<S>(parts: Seq<Part>, step: spec_fn(S, Child) -> Outcome<S>, j: int) -> bool {
    forall|s: S, i: int| j <= i < parts.len() && 0 <= i ==> (#[trigger] step(s, part_child(parts[i]))).0 == s
}

/// Whether what holds of the state is kept by each box.
spec fn keeps<S>(parts: Seq<Part>, step: spec_fn(S, Child) -> Outcome<S>, inv: spec_fn(S) -> bool) -> bool {
    forall|s: S, i: int| 0 <= i < parts.len() && inv(s) ==> inv((#[trigger] step(s, part_child(parts[i]))).0)
}

proof fn lemma_rest<S>(parts: Seq<Part>, step: spec_fn(S, Child) -> Outcome<S>, inv: spec_fn(S) -> bool, j: int)
    requires
        parts.len() > 0,
        all_taken(parts, step),
        idle_from(parts, step, j),
        keeps(parts, step, inv),
    ensures
        all_taken(parts.drop_first(), step),
        idle_from(parts.drop_first(), step, j - 1),
        keeps(parts.drop_first(), step, inv),
{
    let rest = parts.drop_first();
    assert forall|s: S, i: int| 0 <= i < rest.len() implies (#[trigger] step(s, part_child(rest[i]))).1 == Ok::<(), Error>(
        (),
    ) by {
        assert(rest[i] == parts[i + 1]);
    }
    assert forall|s: S, i: int| j - 1 <= i < rest.len() && 0 <= i implies (#[trigger] step(s, part_child(rest[i]))).0
        == s by {
        assert(rest[i] == parts[i + 1]);
    }
    assert forall|s: S, i: int| 0 <= i < rest.len() && inv(s) implies inv((#[trigger] step(s, part_child(rest[i]))).0) by {
        assert(rest[i] == parts[i + 1]);
    }
}

/// Boxes that change nothing come to nothing.
proof fn lemma_idle<S>(parts: Seq<Part>, s: S, step: spec_fn(S, Child) -> Outcome<S>)
    requires
        all_taken(parts, step),
        idle_from(parts, step, 0),
    ensures
        each_part(parts, s, step) == (s, Ok::<(), Error>(())),
    decreases parts.len(),
{
    if parts.len() > 0 {
        let r = step(s, part_child(parts[0]));
        assert(r.0 == s && r.1 == Ok::<(), Error>(()));
        lemma_rest(parts, step, |x: S| true, 0);
        lemma_idle(parts.drop_first(), s, step);
    }
}

/// Where the boxes behind the `j`th change nothing, all come to what the `j`th comes to.
proof fn lemma_settled<S>(parts: Seq<Part>, s: S, step: spec_fn(S, Child) -> Outcome<S>, inv: spec_fn(S) -> bool, j: int) -> (
    s0: S)
    requires
        0 <= j < parts.len(),
        all_taken(parts, step),
        idle_from(parts, step, j + 1),
        keeps(parts, step, inv),
        inv(s),
    ensures
        inv(s0),
        each_part(parts, s, step) == step(s0, part_child(parts[j])),
    decreases parts.len(),
{
    let (s2, r) = step(s, part_child(parts[0]));
    lemma_rest(parts, step, inv, j + 1);
    assert(r == Ok::<(), Error>(()));
    if j == 0 {
        lemma_idle(parts.drop_first(), s2, step);
        s
    } else {
        assert(parts[j] == parts.drop_first()[j - 1]);
        lemma_settled(parts.drop_first(), s2, step, inv, j - 1)
    }
}

/// Whether the boxes behind the `j`th have none of the given codes.
pub open spec fn last_of(parts: Seq<Part>, j: int, codes: Set<u32>) -> bool {
    forall|i: int| j < i < parts.len() && 0 <= i ==> !codes.contains((#[trigger] parts[i]).0)
}

/// The codes of the boxes that configure a video decoder.
pub open spec fn video_configs() -> Set<u32> {
    set![name('a', 'v', 'c', 'C'), name('h', 'v', 'c', 'C'), name('a', 'v', '1', 'C'), name('v', 'p', 'c', 'C')]
}

/// The codes of the boxes that configure an audio decoder.
pub open spec fn audio_configs() -> Set<u32> {
    set![name('d', 'f', 'L', 'a'), name('d', 'O', 'p', 's'), name('d', 'a', 'c', '3'), name('d', 'e', 'c', '3')]
}

/// The codes of the boxes that hold an elementary stream descriptor.
pub open spec fn descriptors() -> Set<u32> {
    set![name('e', 's', 'd', 's')]
}

/// The track with the frame size in a preamble.
pub open spec fn framed(t: TrackModel, pre: Seq<u8>) -> TrackModel {
    TrackModel {
        width: Some((pre[24] * 0x100 + pre[25]) as u32),
        height: Some((pre[26] * 0x100 + pre[27]) as u32),
        ..t
    }
}

/// The track with the sound format in a preamble.
pub open spec fn sounded(t: TrackModel, pre: Seq<u8>) -> TrackModel {
    TrackModel {
        channels: Some((pre[16] * 0x100 + pre[17]) as u16),
        sample_size_bits: Some((pre[18] * 0x100 + pre[19]) as u16),
        sample_rate: Some((pre[24] * 0x100 + pre[25]) as u32),
        ..t
    }
}

/// Whether `x` is the track `t` but for the configuration of the decoder.
pub open spec fn only_configured(x: TrackModel, t: TrackModel) -> bool {
    x == (TrackModel { extradata: x.extradata, esds_oti: x.esds_oti, ..t })
}

proof fn lemma_video_split(t: TrackModel, pre: Seq<u8>, parts: Seq<Part>)
    requires
        pre.len() == 78,
        parts.len() > 0,
        parts_fit(parts),
    ensures
        video_entry(t, pre + box_list(parts)) == each_part(
            parts,
            framed(t, pre),
            |t: TrackModel, c: Child| video_step(t, c),
        ),
{
    let b = box_list(parts);
    let entry = pre + b;
    lemma_first_part(Seq::empty(), parts);
    assert(Seq::<u8>::empty() + b =~= b);
    assert(entry.subrange(78, entry.len() as int) =~= b);
    reveal(be16);
    assert(be16(entry, 24) == pre[24] * 0x100 + pre[25]);
    assert(be16(entry, 26) == pre[26] * 0x100 + pre[27]);
    law_walk_in_order(parts, framed(t, pre), |t: TrackModel, c: Child| video_step(t, c));
}

proof fn lemma_audio_split(t: TrackModel, pre: Seq<u8>, parts: Seq<Part>)
    requires
        pre.len() == 28,
        parts_fit(parts),
    ensures
        audio_entry(t, pre + box_list(parts)) == each_part(
            parts,
            sounded(t, pre),
            |t: TrackModel, c: Child| audio_step(t, c),
        ),
{
    let b = box_list(parts);
    let entry = pre + b;
    assert(entry.subrange(28, entry.len() as int) =~= b);
    reveal(be16);
    reveal(be32);
    assert(be16(entry, 16) == pre[16] * 0x100 + pre[17]);
    assert(be16(entry, 18) == pre[18] * 0x100 + pre[19]);
    assert(be32(entry, 24) / 0x1_0000 == pre[24] * 0x100 + pre[25]);
    law_walk_in_order(parts, sounded(t, pre), |t: TrackModel, c: Child| audio_step(t, c));
}

/// Where a video sample entry is its preamble of 78 bytes followed by boxes, of which the `j`th is of the kind
/// `avcC`, `hvcC`, `av1C` or `vpcC` and none behind it configures the decoder, the configuration of the track is
/// the payload of that box, byte for byte. The size of the frames is in the preamble.
pub proof fn law_video_config(t: TrackModel, pre: Seq<u8>, parts: Seq<Part>, j: int)
    requires
        pre.len() == 78,
        parts_fit(parts),
        0 <= j < parts.len(),
        video_configs().contains(parts[j].0),
        last_of(parts, j, video_configs() + descriptors()),
    ensures
        ({
            let (t2, r) = video_entry(t, pre + box_list(parts));
            &&& r is Ok
            &&& t2.extradata == parts[j].1
            &&& only_configured(t2, framed(t, pre))
        }),
{
    lemma_video_split(t, pre, parts);
    let s = framed(t, pre);
    let step = |t: TrackModel, c: Child| video_step(t, c);
    let inv = |x: TrackModel| only_configured(x, s);
    let s0 = lemma_settled(parts, s, step, inv, j);
}

/// Where no box of a video sample entry configures the decoder, the configuration of the track stays as it was.
pub proof fn law_video_plain(t: TrackModel, pre: Seq<u8>, parts: Seq<Part>)
    requires
        pre.len() == 78,
        parts_fit(parts),
        last_of(parts, -1, video_configs() + descriptors()),
    ensures
        video_entry(t, pre + box_list(parts)) == (framed(t, pre), Ok::<(), Error>(())),
{
    if parts.len() > 0 {
        lemma_video_split(t, pre, parts);
        lemma_idle(parts, framed(t, pre), |t: TrackModel, c: Child| video_step(t, c));
    } else {
        assert(pre + box_list(parts) =~= pre);
        reveal(be16);
    }
}

/// Where a video sample entry has an elementary stream descriptor, and no box behind it configures the decoder,
/// the configuration of the track is the decoder specific information in it, and the object type is kept.
pub proof fn law_video_descriptor(t: TrackModel, pre: Seq<u8>, parts: Seq<Part>, j: int, v: Seq<u8>, d: DescriptorFields)
    requires
        pre.len() == 78,
        parts_fit(parts),
        0 <= j < parts.len(),
        v.len() == 4,
        d.fits(),
        d.dsi.len() > 0,
        parts[j] == (name('e', 's', 'd', 's'), v + descriptor_layout(d)),
        last_of(parts, j, video_configs() + descriptors()),
    ensures
        ({
            let (t2, r) = video_entry(t, pre + box_list(parts));
            &&& r is Ok
            &&& t2.extradata == d.dsi
            &&& t2.esds_oti == Some(d.oti)
            &&& only_configured(t2, framed(t, pre))
        }),
{
    lemma_video_split(t, pre, parts);
    let s = framed(t, pre);
    let step = |t: TrackModel, c: Child| video_step(t, c);
    let inv = |x: TrackModel| only_configured(x, s);
    let s0 = lemma_settled(parts, s, step, inv, j);
    let x = parts[j].1;
    assert(x.subrange(4, x.len() as int) =~= descriptor_layout(d));
    law_descriptor_layout(d);
}

/// What a box that configures an audio decoder says: all of a `dac3` or `dec3`, a `dfLa` without its first
/// four bytes, a `dOps` behind the letters `OpusHead`.
pub open spec fn audio_config(p: Part) -> Seq<u8> {
    if p.0 == name('d', 'f', 'L', 'a') {
        p.1.skip(4)
    } else if p.0 == name('d', 'O', 'p', 's') {
        enc32(name('O', 'p', 'u', 's')) + enc32(name('H', 'e', 'a', 'd')) + p.1
    } else {
        p.1
    }
}

proof fn lemma_opus_head()
    ensures
        crate::entries::opus_head() == enc32(name('O', 'p', 'u', 's')) + enc32(name('H', 'e', 'a', 'd')),
{
    assert(crate::entries::opus_head() =~= enc32(name('O', 'p', 'u', 's')) + enc32(name('H', 'e', 'a', 'd')));
}

/// Where an audio sample entry is its preamble of 28 bytes followed by boxes, of which the `j`th configures the
/// decoder and none behind it does, the configuration of the track is what that box says. How many channels
/// there are, the size of the samples and the rate are in the preamble.
pub proof fn law_audio_config(t: TrackModel, pre: Seq<u8>, parts: Seq<Part>, j: int)
    requires
        pre.len() == 28,
        parts_fit(parts),
        0 <= j < parts.len(),
        audio_configs().contains(parts[j].0),
        parts[j].0 == name('d', 'f', 'L', 'a') ==> parts[j].1.len() > 4,
        parts[j].0 == name('d', 'O', 'p', 's') ==> parts[j].1.len() >= 11,
        last_of(parts, j, audio_configs() + descriptors()),
    ensures
        ({
            let (t2, r) = audio_entry(t, pre + box_list(parts));
            &&& r is Ok
            &&& t2.extradata == audio_config(parts[j])
            &&& only_configured(t2, sounded(t, pre))
        }),
{
    lemma_audio_split(t, pre, parts);
    let s = sounded(t, pre);
    let step = |t: TrackModel, c: Child| audio_step(t, c);
    let inv = |x: TrackModel| only_configured(x, s);
    let s0 = lemma_settled(parts, s, step, inv, j);
    lemma_opus_head();
    if parts[j].0 == name('d', 'f', 'L', 'a') {
        assert(parts[j].1.skip(4) =~= parts[j].1.subrange(4, parts[j].1.len() as int));
    }
}

/// Where no box of an audio sample entry configures the decoder, the configuration of the track stays as it was.
pub proof fn law_audio_plain(t: TrackModel, pre: Seq<u8>, parts: Seq<Part>)
    requires
        pre.len() == 28,
        parts_fit(parts),
        last_of(parts, -1, audio_configs() + descriptors()),
    ensures
        audio_entry(t, pre + box_list(parts)) == (sounded(t, pre), Ok::<(), Error>(())),
{
    lemma_audio_split(t, pre, parts);
    lemma_idle(parts, sounded(t, pre), |t: TrackModel, c: Child| audio_step(t, c));
}

/// Where an audio sample entry has an elementary stream descriptor, and no box behind it configures the decoder,
/// the configuration of the track is the decoder specific information in it, and the object type is kept.
pub proof fn law_audio_descriptor(t: TrackModel, pre: Seq<u8>, parts: Seq<Part>, j: int, v: Seq<u8>, d: DescriptorFields)
    requires
        pre.len() == 28,
        parts_fit(parts),
        0 <= j < parts.len(),
        v.len() == 4,
        d.fits(),
        d.dsi.len() > 0,
        parts[j] == (name('e', 's', 'd', 's'), v + descriptor_layout(d)),
        last_of(parts, j, audio_configs() + descriptors()),
    ensures
        ({
            let (t2, r) = audio_entry(t, pre + box_list(parts));
            &&& r is Ok
            &&& t2.extradata == d.dsi
            &&& t2.esds_oti == Some(d.oti)
            &&& only_configured(t2, sounded(t, pre))
        }),
{
    lemma_audio_split(t, pre, parts);
    let s = sounded(t, pre);
    let step = |t: TrackModel, c: Child| audio_step(t, c);
    let inv = |x: TrackModel| only_configured(x, s);
    let s0 = lemma_settled(parts, s, step, inv, j);
    let x = parts[j].1;
    assert(x.subrange(4, x.len() as int) =~= descriptor_layout(d));
    law_descriptor_layout(d);
}

/// The codes of the subtitle formats whose sample entry configures the decoder.
pub open spec fn subtitle_formats() -> Set<u32> {
    set![
        name('s', 't', 'p', 'p'), name('s', 'b', 't', 't'), name('s', 't', 'x', 't'), name('w', 'v', 't', 't'),
        name('t', 'x', '3', 'g'), name('t', 'e', 'x', 't'), name('c', '6', '0', '8'), name('c', '7', '0', '8')
    ]
}

/// The configuration of a subtitle track is what follows the first eight bytes of its sample entry; with a
/// format that is not known it stays as it was.
pub proof fn law_subtitle_config(t: TrackModel, pre: Seq<u8>, d: Seq<u8>, code: u32)
    requires
        pre.len() == 8,
        t.codec_id_fourcc == code_at(enc32(code), 0),
    ensures
        subtitle_formats().contains(code) ==> subtitle_entry(t, pre + d) == (TrackModel { extradata: d, ..t }),
        !subtitle_formats().contains(code) ==> subtitle_entry(t, pre + d) == t,
{
    let c = t.codec_id_fourcc@;
    let w = enc32(code);
    assert(c =~= w);
    assert(c.subrange(0, 4) =~= w);
    law_enc32_be32(code, c, 0);
    let entry = pre + d;
    assert(entry.subrange(8, entry.len() as int) =~= d);
}

/// The payload of the first of the boxes that has the code.
pub open spec fn first_part(parts: Seq<Part>, code: u32) -> Option<Seq<u8>>
    decreases parts.len(),
{
    if parts.len() == 0 {
        None
    } else if parts[0].0 == code {
        Some(parts[0].1)
    } else {
        first_part(parts.drop_first(), code)
    }
}

proof fn lemma_first_child(pre: Seq<u8>, parts: Seq<Part>, code: u32)
    requires
        parts_fit(parts),
    ensures
        first_child(pre + box_list(parts), pre.len() as int, code) == Ok::<Option<Seq<u8>>, Error>(
            first_part(parts, code),
        ),
    decreases parts.len(),
{
    if parts.len() > 0 {
        lemma_first_part(pre, parts);
        lemma_first_child(pre + crate::boxes::boxed(parts[0].0, parts[0].1), parts.drop_first(), code);
    } else {
        assert(pre + box_list(parts) =~= pre);
    }
}

/// The first of the boxes with a code is found.
pub proof fn law_first_child(parts: Seq<Part>, code: u32)
    requires
        parts_fit(parts),
    ensures
        first_child(box_list(parts), 0, code) == Ok::<Option<Seq<u8>>, Error>(first_part(parts, code)),
{
    lemma_first_child(Seq::empty(), parts, code);
    assert(Seq::<u8>::empty() + box_list(parts) =~= box_list(parts));
}

/// The boxes of a protection scheme box: the original format, the scheme, and scheme information that holds a
/// track encryption box.
pub open spec fn protection_parts(format: u32, v: Seq<u8>, scheme: u32, version: Seq<u8>, tenc: Seq<u8>) -> Seq<Part> {
    seq![
        (name('f', 'r', 'm', 'a'), enc32(format)),
        (name('s', 'c', 'h', 'm'), v + enc32(scheme) + version),
        (name('s', 'c', 'h', 'i'), box_list(seq![(name('t', 'e', 'n', 'c'), tenc)])),
    ]
}

proof fn lemma_code(b: Seq<u8>, i: int, code: u32)
    requires
        0 <= i,
        i + 4 <= b.len(),
        b.subrange(i, i + 4) == enc32(code),
    ensures
        code_at(b, i) == code_at(enc32(code), 0),
{
    let w = b.subrange(i, i + 4);
    assert(w[0] == b[i] && w[1] == b[i + 1] && w[2] == b[i + 2] && w[3] == b[i + 3]);
    assert(code_at(b, i) =~= code_at(enc32(code), 0));
}

/// A protection scheme box gives the original format, the scheme and what the track encryption box says.
pub proof fn law_protection(format: u32, v: Seq<u8>, scheme: u32, version: Seq<u8>, tenc: Seq<u8>, m: TencModel)
    requires
        v.len() == 4,
        parts_fit(protection_parts(format, v, scheme, version, tenc)),
        tenc.len() < 0xFFFF_0000,
        tenc_of(tenc) == Ok::<TencModel, Error>(m),
    ensures
        ({
            let r = sinf_of(box_list(protection_parts(format, v, scheme, version, tenc)));
            &&& r is Ok
            &&& r->Ok_0.original_format == Some(code_at(enc32(format), 0))
            &&& r->Ok_0.scheme_type == Some(code_at(enc32(scheme), 0))
            &&& r->Ok_0.tenc == Some(m)
        }),
{
    let parts = protection_parts(format, v, scheme, version, tenc);
    let step = |s: SinfModel, c: Child| sinf_step(s, c);
    let s0 = SinfModel::nothing();
    law_walk_in_order(parts, s0, step);
    assert(sinf_from(box_list(parts), 0, s0) == walk(box_list(parts), 0, s0, step));
    let p1 = parts.drop_first();
    let p2 = p1.drop_first();
    let p3 = p2.drop_first();
    assert(p1[0] == parts[1] && p2[0] == parts[2] && p3.len() == 0);
    let d0 = parts[0].1;
    let d1 = parts[1].1;
    let d2 = parts[2].1;
    assert(d0.subrange(0, 4) =~= enc32(format));
    lemma_code(d0, 0, format);
    assert(d1.subrange(4, 8) =~= enc32(scheme));
    lemma_code(d1, 4, scheme);
    let inner = seq![(name('t', 'e', 'n', 'c'), tenc)];
    law_first_child(inner, name('t', 'e', 'n', 'c'));
    let (s1, r1) = step(s0, part_child(parts[0]));
    let (s2, r2) = step(s1, part_child(parts[1]));
    let (s3, r3) = step(s2, part_child(parts[2]));
    assert(r1 is Ok && r2 is Ok && r3 is Ok);
    assert(each_part(p3, s3, step) == (s3, Ok::<(), Error>(())));
    assert(each_part(p2, s2, step) == each_part(p3, s3, step));
    assert(each_part(p1, s1, step) == each_part(p2, s2, step));
    assert(each_part(parts, s0, step) == each_part(p1, s1, step));
}

/// What protects a sample entry is in the first protection scheme box among the boxes behind its preamble, of
/// 78 bytes for video and 28 bytes for audio.
pub proof fn law_entry_protection(media: MediaType, pre: Seq<u8>, parts: Seq<Part>, d: Seq<u8>)
    requires
        parts_fit(parts),
        media == MediaType::Video && pre.len() == 78 || media == MediaType::Audio && pre.len() == 28,
        first_part(parts, name('s', 'i', 'n', 'f')) == Some(d),
    ensures
        entry_protection(pre + box_list(parts), media) == sinf_of(d),
{
    let entry = pre + box_list(parts);
    law_first_child(parts, name('s', 'i', 'n', 'f'));
    lemma_first_part(Seq::empty(), parts);
    assert(Seq::<u8>::empty() + box_list(parts) =~= box_list(parts));
    assert(entry.subrange(pre.len() as int, entry.len() as int) =~= box_list(parts));
}

/// The codes of protected sample entries.
pub open spec fn protected_entries() -> Set<u32> {
    set![name('e', 'n', 'c', 'v'), name('e', 'n', 'c', 'a'), name('e', 'n', 'c', 't'), name('e', 'n', 'c', 's')]
}

/// The rows of sample entries: code and data reference of each.
spec fn rows_of(parts: Seq<Part>, n: int) -> Seq<crate::track::StsdEntry> {
    Seq::new(n as nat, |i: int| stsd_row(code_at(enc32(parts[i].0), 0), parts[i].1))
}

proof fn lemma_stsd_rows(pre: Seq<u8>, parts: Seq<Part>, n: nat, t: TrackModel, first: Option<Entry>)
    requires
        parts_fit(parts),
        n >= parts.len(),
    ensures
        ({
            let (t2, r) = stsd_rows(pre + box_list(parts), pre.len() as int, n, t, first);
            &&& t2 == (TrackModel { stsd_entries: t.stsd_entries + rows_of(parts, parts.len() as int), ..t })
            &&& r is Ok
            &&& first is Some ==> r->Ok_0 == first
            &&& first is None && parts.len() > 0 ==> r->Ok_0 == Some((code_at(enc32(parts[0].0), 0), parts[0].0, parts[0].1))
        }),
    decreases n,
{
    if parts.len() > 0 {
        lemma_first_part(pre, parts);
        let b = pre + box_list(parts);
        let pos = pre.len() as int;
        let h = crate::boxes::header_at(b, pos)->Ok_0;
        let c = crate::boxes::child_at(b, pos, h);
        let rest = parts.drop_first();
        let row = stsd_row(h.fourcc, c.data);
        let t2 = TrackModel { stsd_entries: t.stsd_entries.push(row), ..t };
        let f2 = if first is Some { first } else { Some((h.fourcc, h.kind, c.data)) };
        lemma_stsd_rows(pre + crate::boxes::boxed(parts[0].0, parts[0].1), rest, (n - 1) as nat, t2, f2);
        assert(t2.stsd_entries + rows_of(rest, rest.len() as int) =~= t.stsd_entries + rows_of(
            parts,
            parts.len() as int,
        ));
    } else {
        assert(pre + box_list(parts) =~= pre);
        assert(t.stsd_entries + rows_of(parts, 0) =~= t.stsd_entries);
    }
}

/// The first sample entry of a sample description table describes the track: its code is that of the codec, or
/// where it is protected and gives one, the original format is; each entry has a row with its code.
pub proof fn law_first_entry(t: TrackModel, v: Seq<u8>, n: u32, parts: Seq<Part>)
    requires
        v.len() == 4,
        0 < parts.len() <= n,
        parts_fit(parts),
    ensures
        ({
            let (code, d) = parts[0];
            let (t2, r) = stsd_of(t, v + enc32(n) + box_list(parts));
            let rows = t2.stsd_entries.skip(t.stsd_entries.len() as int);
            let coded = |c: [u8; 4]| TrackModel { codec_id_fourcc: c, stsd_entries: t.stsd_entries + rows, ..t };
            &&& !protected_entries().contains(code) ==> (t2, r) == sample_entry(coded(code_at(enc32(code), 0)), d)
            &&& protected_entries().contains(code) && entry_protection(d, t.media_type) is Ok ==> {
                let s = entry_protection(d, t.media_type)->Ok_0;
                let format = if s.original_format is Some { s.original_format->Some_0 } else { code_at(enc32(code), 0) };
                (t2, r) == sample_entry(
                    TrackModel { protection_scheme: s.scheme_type, tenc: s.tenc, ..coded(format) },
                    d,
                )
            }
            &&& protected_entries().contains(code) && entry_protection(d, t.media_type) is Err ==> r is Err
            &&& rows.len() == parts.len()
            &&& forall|i: int| 0 <= i < parts.len() ==> (#[trigger] rows[i]).format == code_at(enc32(parts[i].0), 0)
            &&& forall|i: int| 0 <= i < parts.len() && parts[i].1.len() >= 8 ==> (#[trigger] rows[i]).data_reference_index
                == parts[i].1[6] * 0x100 + parts[i].1[7]
        }),
{
    let b = v + enc32(n) + box_list(parts);
    assert(b.subrange(4, 8) =~= enc32(n));
    law_enc32_be32(n, b, 4);
    assert(b.subrange(8, b.len() as int) =~= box_list(parts));
    lemma_stsd_rows(Seq::empty(), parts, n as nat, t, None);
    assert(Seq::<u8>::empty() + box_list(parts) =~= box_list(parts));
    let entry: Entry = (code_at(enc32(parts[0].0), 0), parts[0].0, parts[0].1);
    let t1 = TrackModel { stsd_entries: t.stsd_entries + rows_of(parts, parts.len() as int), ..t };
    assert(stsd_of(t, b) == first_entry(t1, entry));
    lemma_keeps_rows(t1, entry);
    let t2 = stsd_of(t, b).0;
    let rows = t2.stsd_entries.skip(t.stsd_entries.len() as int);
    assert(rows =~= rows_of(parts, parts.len() as int));
    assert(t.stsd_entries + rows =~= t1.stsd_entries);
    reveal(be16);
}

/// A sample entry does not change the rows.
proof fn lemma_keeps_rows(t: TrackModel, entry: Entry)
    ensures
        first_entry(t, entry).0.stsd_entries == t.stsd_entries,
{
    let d = entry.2;
    let inv = |x: TrackModel| x.stsd_entries == t.stsd_entries;
    assert forall|s: TrackModel| inv(s) implies inv(#[trigger] video_entry(s, d).0) by {
        let sized = TrackModel { width: Some(be16(d, 24) as u32), height: Some(be16(d, 26) as u32), ..s };
        let step = |t: TrackModel, c: Child| video_step(t, c);
        let b = d.subrange(78, d.len() as int);
        crate::boxes::lemma_walk_keeps(b, 0, sized, step, inv);
        assert(video_from(b, 0, sized) == walk(b, 0, sized, step));
    }
    assert forall|s: TrackModel| inv(s) implies inv(#[trigger] audio_entry(s, d).0) by {
        let s1 = TrackModel {
            channels: Some(be16(d, 16)),
            sample_size_bits: Some(be16(d, 18)),
            sample_rate: Some((be32(d, 24) / 0x1_0000) as u32),
            ..s
        };
        let step = |t: TrackModel, c: Child| audio_step(t, c);
        let b = d.subrange(28, d.len() as int);
        crate::boxes::lemma_walk_keeps(b, 0, s1, step, inv);
        assert(audio_from(b, 0, s1) == walk(b, 0, s1, step));
    }
    assert forall|s: TrackModel| inv(s) implies inv(#[trigger] sample_entry(s, d).0) by {
        assert(inv(video_entry(s, d).0));
        assert(inv(audio_entry(s, d).0));
    }
}

/// A sample description table without entries says nothing, and one that says it has entries but has none is refused.
pub proof fn law_no_entries(t: TrackModel, v: Seq<u8>, n: u32, tail: Seq<u8>)
    requires
        v.len() == 4,
    ensures
        n == 0 ==> stsd_of(t, v + enc32(n) + tail) == (t, Ok::<(), Error>(())),
        n > 0 && tail.len() == 0 ==> stsd_of(t, v + enc32(n) + tail).1 is Err,
{
    let b = v + enc32(n) + tail;
    assert(b.subrange(4, 8) =~= enc32(n));
    law_enc32_be32(n, b, 4);
}

/// A sample entry that is shorter than its preamble says what fits in it: of a video nothing without the size of the
/// frames and else that alone, of audio nothing, of subtitles nothing.
pub proof fn law_short_entries(t: TrackModel, entry: Seq<u8>)
    ensures
        entry.len() < 28 ==> video_entry(t, entry) == (t, Ok::<(), Error>(())) && audio_entry(t, entry) == (
            t,
            Ok::<(), Error>(()),
        ),
        28 <= entry.len() <= 78 ==> video_entry(t, entry) == (framed(t, entry), Ok::<(), Error>(())),
        entry.len() < 8 ==> subtitle_entry(t, entry) == t && sample_entry(t, entry) == (t, Ok::<(), Error>(())),
{
    reveal(be16);
}

/// A sample entry is read by the kind of media of its track.
pub proof fn law_entry_by_media(t: TrackModel, entry: Seq<u8>)
    requires
        entry.len() >= 8,
    ensures
        t.media_type == MediaType::Video ==> sample_entry(t, entry) == video_entry(t, entry),
        t.media_type == MediaType::Audio ==> sample_entry(t, entry) == audio_entry(t, entry),
        t.media_type == MediaType::Subtitle ==> sample_entry(t, entry) == (subtitle_entry(t, entry), Ok::<(), Error>(())),
        t.media_type == MediaType::Data ==> sample_entry(t, entry) == (t, Ok::<(), Error>(())),
{
}

/// A box of an audio sample entry that is too short for what it should hold is passed over, and so is a descriptor
/// without decoder specific information, of which the object type is kept.
pub proof fn law_short_audio_config(t: TrackModel, d: Seq<u8>, v: Seq<u8>, x: DescriptorFields)
    requires
        v.len() == 4,
        x.fits(),
        x.dsi.len() == 0,
    ensures
        d.len() <= 4 ==> audio_step(t, part_child((name('d', 'f', 'L', 'a'), d))) == (t, Ok::<(), Error>(())),
        d.len() < 11 ==> audio_step(t, part_child((name('d', 'O', 'p', 's'), d))) == (t, Ok::<(), Error>(())),
        audio_step(t, part_child((name('e', 's', 'd', 's'), v + descriptor_layout(x)))) == (
            TrackModel { esds_oti: Some(x.oti), ..t },
            Ok::<(), Error>(()),
        ),
        video_step(t, part_child((name('e', 's', 'd', 's'), v + descriptor_layout(x)))) == (
            TrackModel { esds_oti: Some(x.oti), ..t },
            Ok::<(), Error>(()),
        ),
{
    let b = v + descriptor_layout(x);
    assert(b.subrange(4, b.len() as int) =~= descriptor_layout(x));
    law_descriptor_layout(x);
}

}
