//! How the boxes on references, groups, selection and copyright of a track are laid out.
use vstd::prelude::*;
use vstd::utf8::{decode_utf8, valid_utf8};
use crate::boxlaws::{lemma_rows, rows};
use crate::bytes::{be32, code_at, enc32, u32_of};
use crate::childlaws::part_child;
use crate::codelaws::{law_codes, name};
use crate::error::Error;
use crate::indexlaws::{enc16, lemma_at16};
use crate::layoutlaws::{at, lemma_at32, lemma_peel, lemma_whole};
use crate::protectlaws::{lemma_at8, lemma_code_at};
use crate::tables::words;
use crate::text::{decoded_text, first_nul};
use crate::textlaws::law_first_nul;
use crate::track::{CopyrightModel, SubTrackModel, SubTrackSampleGroupModel, TrackModel, TselModel};
use crate::trak::{
    codes_from, cprt_of, cstr_at, elng_of, kind_of, nonzero, strd_from, strd_step, stri_of, strk_from, strk_of,
    strk_step, stsg_of, tref_step, trgr_step, tsel_of,
};

verus! {

/// Of numbers those that are not 0 are kept, in order.
pub proof fn law_nonzero(s: Seq<u32>)
    ensures
        nonzero(s) == s.filter(|x: u32| x != 0),
    decreases s.len(),
{
    reveal(Seq::filter);
    if s.len() > 0 {
        law_nonzero(s.drop_last());
    }
}

proof fn lemma_words(b: Seq<u8>, q: int, ids: Seq<u32>)
    requires
        at(b, q, rows(ids.len() as int, |i: int| enc32(ids[i]))),
    ensures
        words(b, q, ids.len()) == ids,
        rows(ids.len() as int, |i: int| enc32(ids[i])).len() == 4 * ids.len(),
{
    let n = ids.len() as int;
    let row = |i: int| enc32(ids[i]);
    lemma_rows(b, q, n, row, 4);
    assert forall|i: int| 0 <= i < n implies be32(b, q + 4 * i) == #[trigger] ids[i] by {
        assert(at(b, q + 4 * i, row(i)));
        lemma_at32(b, q + 4 * i, ids[i]);
    }
    assert(words(b, q, ids.len()) =~= ids);
}

/// A track reference lists the tracks that it refers to; zeros are left out, and of references of one kind the first
/// counts.
pub proof fn law_tref_layout(t: TrackModel, code: u32, ids: Seq<u32>)
    ensures
        ({
            let d = rows(ids.len() as int, |i: int| enc32(ids[i]));
            let kind = code_at(enc32(code), 0)@;
            let known = exists|i: int| 0 <= i < t.tref.len() && (#[trigger] t.tref[i]).0 == kind;
            let r = tref_step(t, part_child((code, d)));
            &&& known ==> r == (t, Ok::<(), Error>(()))
            &&& !known ==> r == (
                TrackModel { tref: t.tref.push((kind, ids.filter(|x: u32| x != 0))), ..t },
                Ok::<(), Error>(()),
            )
        }),
{
    let d = rows(ids.len() as int, |i: int| enc32(ids[i]));
    lemma_whole(d);
    lemma_words(d, 0, ids);
    law_nonzero(ids);
    assert(d.len() / 4 == ids.len());
}

/// A track group has a kind and a number; other versions than the first are passed over.
pub proof fn law_trgr_layout(t: TrackModel, code: u32, v: Seq<u8>, id: u32, tail: Seq<u8>)
    requires
        v.len() == 4,
    ensures
        ({
            let r = trgr_step(t, part_child((code, v + enc32(id) + tail)));
            &&& v[0] == 0 ==> r == (
                TrackModel { trgr: t.trgr.push((code_at(enc32(code), 0), id)), ..t },
                Ok::<(), Error>(()),
            )
            &&& v[0] != 0 ==> r == (t, Ok::<(), Error>(()))
        }),
{
    let d = v + enc32(id) + tail;
    lemma_whole(d);
    lemma_peel(d, 0, v + enc32(id), tail);
    lemma_peel(d, 0, v, enc32(id));
    lemma_at32(d, 4, id);
}

proof fn lemma_codes_list(b: Seq<u8>, q: int, codes: Seq<[u8; 4]>)
    requires
        at(b, q, rows(codes.len() as int, |i: int| codes[i]@)),
        b.len() == q + rows(codes.len() as int, |i: int| codes[i]@).len(),
    ensures
        codes_from(b, q) == codes,
{
    let n = codes.len() as int;
    let row = |i: int| codes[i]@;
    assert forall|i: int| 0 <= i < n implies (#[trigger] row(i)).len() == 4 by {}
    lemma_rows(b, q, n, row, 4);
    assert forall|i: int| 0 <= i < n implies code_at(b, q + 4 * i) == #[trigger] codes[i] by {
        assert(at(b, q + 4 * i, row(i)));
        lemma_code_at(b, q + 4 * i, codes[i]);
    }
    assert((b.len() - q) / 4 == n);
    assert(codes_from(b, q) =~= codes);
}

/// A track selection has a switch group, which may be negative, and attributes to its end.
pub proof fn law_tsel_layout(t: TrackModel, flags: Seq<u8>, x: TselModel)
    requires
        flags.len() == 3,
    ensures
        tsel_of(
            t,
            seq![0u8] + flags + enc32(u32_of(x.switch_group)) + rows(
                x.attribute_list.len() as int,
                |i: int| x.attribute_list[i]@,
            ),
        ) == (TrackModel { tsel: Some(x), ..t }),
{
    let n = x.attribute_list.len() as int;
    let row = |i: int| x.attribute_list[i]@;
    let v = seq![0u8] + flags;
    let h = v + enc32(u32_of(x.switch_group));
    let b = h + rows(n, row);
    lemma_whole(b);
    lemma_peel(b, 0, h, rows(n, row));
    lemma_peel(b, 0, v, enc32(u32_of(x.switch_group)));
    lemma_peel(b, 0, seq![0u8], flags);
    lemma_at8(b, 0, 0u8);
    lemma_at32(b, 4, u32_of(x.switch_group));
    lemma_codes_list(b, 8, x.attribute_list);
}

/// The pattern of a signed 16-bit number.
pub open spec fn u16_of(x: i16) -> int {
    if x >= 0 { x as int } else { x + 0x1_0000 }
}

/// Sub track information has a switch group and an alternate group, which may be negative, a number, and attributes to
/// its end.
pub proof fn law_stri_layout(flags: Seq<u8>, x: SubTrackModel)
    requires
        flags.len() == 3,
        x.sample_groups.len() == 0,
    ensures
        stri_of(
            seq![0u8] + flags + enc16(u16_of(x.switch_group)) + enc16(u16_of(x.alternate_group)) + enc32(x.sub_track_id)
                + rows(x.attribute_list.len() as int, |i: int| x.attribute_list[i]@),
        ) == Some(x),
{
    let n = x.attribute_list.len() as int;
    let row = |i: int| x.attribute_list[i]@;
    let v = seq![0u8] + flags;
    let h1 = v + enc16(u16_of(x.switch_group));
    let h2 = h1 + enc16(u16_of(x.alternate_group));
    let h3 = h2 + enc32(x.sub_track_id);
    let b = h3 + rows(n, row);
    lemma_whole(b);
    lemma_peel(b, 0, h3, rows(n, row));
    lemma_peel(b, 0, h2, enc32(x.sub_track_id));
    lemma_peel(b, 0, h1, enc16(u16_of(x.alternate_group)));
    lemma_peel(b, 0, v, enc16(u16_of(x.switch_group)));
    lemma_peel(b, 0, seq![0u8], flags);
    lemma_at8(b, 0, 0u8);
    lemma_at16(b, 4, u16_of(x.switch_group));
    lemma_at16(b, 6, u16_of(x.alternate_group));
    lemma_at32(b, 8, x.sub_track_id);
    lemma_codes_list(b, 12, x.attribute_list);
    assert(x.sample_groups =~= Seq::empty());
}

/// A sub track sample group has a kind and the descriptions that it is made of.
pub proof fn law_stsg_layout(b: Seq<u8>, flags: Seq<u8>, x: SubTrackSampleGroupModel)
    requires
        flags.len() == 3,
        x.group_description_indices.len() < 0x1_0000,
        at(
            b,
            0,
            seq![0u8] + flags + x.grouping_type@ + enc16(x.group_description_indices.len() as int) + rows(
                x.group_description_indices.len() as int,
                |i: int| enc32(x.group_description_indices[i]),
            ),
        ),
    ensures
        stsg_of(b) == Some(x),
{
    let ids = x.group_description_indices;
    let n = ids.len() as int;
    let row = |i: int| enc32(ids[i]);
    let v = seq![0u8] + flags;
    let h1 = v + x.grouping_type@;
    let h2 = h1 + enc16(n);
    assert(rows(n, |i: int| enc32(x.group_description_indices[i])) == rows(n, row));
    lemma_peel(b, 0, h2, rows(n, row));
    lemma_peel(b, 0, h1, enc16(n));
    lemma_peel(b, 0, v, x.grouping_type@);
    lemma_peel(b, 0, seq![0u8], flags);
    lemma_at8(b, 0, 0u8);
    lemma_code_at(b, 4, x.grouping_type);
    lemma_at16(b, 8, n);
    lemma_words(b, 10, ids);
}

/// What the boxes of a sub track and of its definition are taken for.
pub proof fn law_sub_track_boxes(
    info: Option<SubTrackModel>,
    groups: Seq<SubTrackSampleGroupModel>,
    d: Seq<u8>,
)
    ensures
        strk_step((info, groups), part_child((name('s', 't', 'r', 'i'), d))) == (stri_of(d), groups),
        strk_step((info, groups), part_child((name('s', 't', 'r', 'd'), d))) == (info, strd_from(d, 0, Seq::empty())),
        stsg_of(d) is Some ==> strd_step(groups, part_child((name('s', 't', 's', 'g'), d))) == groups.push(
            stsg_of(d)->Some_0,
        ),
        stsg_of(d) is None ==> strd_step(groups, part_child((name('s', 't', 's', 'g'), d))) == groups,
{
    law_codes();
}

/// A copyright notice has a language, three letters in five bits each, and a text.
pub proof fn law_cprt_layout(t: TrackModel, flags: Seq<u8>, letters: [u8; 3], text: Seq<u8>)
    requires
        flags.len() == 3,
        forall|i: int| 0 <= i < 3 ==> 0x60 <= #[trigger] letters@[i] < 0x80,
    ensures
        ({
            let packed = (letters@[0] - 0x60) * 1024 + (letters@[1] - 0x60) * 32 + (letters@[2] - 0x60);
            cprt_of(t, seq![0u8] + flags + enc16(packed) + text) == (TrackModel {
                copyrights: t.copyrights.push(CopyrightModel { language: letters, notice: decoded_text(text) }),
                ..t
            })
        }),
{
    let a = letters@[0];
    let b1 = letters@[1];
    let c = letters@[2];
    assert(0x60 <= a < 0x80 && 0x60 <= b1 < 0x80 && 0x60 <= c < 0x80);
    let packed = (a - 0x60) * 1024 + (b1 - 0x60) * 32 + (c - 0x60);
    let v = seq![0u8] + flags;
    let b = v + enc16(packed) + text;
    lemma_whole(b);
    lemma_peel(b, 0, v + enc16(packed), text);
    lemma_peel(b, 0, v, enc16(packed));
    lemma_peel(b, 0, seq![0u8], flags);
    lemma_at8(b, 0, 0u8);
    lemma_at16(b, 4, packed);
    assert(b.subrange(6, b.len() as int) =~= text);
    lemma_packed(a - 0x60, b1 - 0x60, c - 0x60);
    let l: [u8; 3] = [a, b1, c];
    assert(l@ =~= letters@);
    assert(l =~= letters);
}

proof fn lemma_packed(a: int, b: int, c: int)
    requires
        0 <= a < 32,
        0 <= b < 32,
        0 <= c < 32,
    ensures
        (a * 1024 + b * 32 + c) / 1024 % 32 == a,
        (a * 1024 + b * 32 + c) / 32 % 32 == b,
        (a * 1024 + b * 32 + c) % 32 == c,
{
    let n = a * 1024 + b * 32 + c;
    assert(n / 32 == a * 32 + b);
    assert(n / 1024 == a);
}

/// Whether bytes are a text without a zero in it.
pub open spec fn plain(s: Seq<u8>) -> bool {
    valid_utf8(s) && forall|i: int| 0 <= i < s.len() ==> #[trigger] s[i] != 0
}

proof fn lemma_cstr(b: Seq<u8>, q: int, s: Seq<u8>)
    requires
        at(b, q, s),
        forall|i: int| 0 <= i < s.len() ==> #[trigger] s[i] != 0,
        q + s.len() == b.len() || b[q + s.len()] == 0,
    ensures
        cstr_at(b, q) == s,
{
    let r = b.subrange(q, b.len() as int);
    law_first_nul(r);
    let n = first_nul(r);
    if n < s.len() {
        assert(r[n] == b.subrange(q, q + s.len())[n]);
        assert(s[n] != 0);
    }
    if n > s.len() {
        assert(r[s.len() as int] == b[q + s.len()]);
    }
    assert(n == s.len());
    assert(r.subrange(0, n) =~= b.subrange(q, q + s.len()));
}

/// The kind of a track is two texts, each ended by a zero; without the first one it is passed over.
pub proof fn law_kind_layout(t: TrackModel, v: Seq<u8>, uri: Seq<u8>, value: Seq<u8>)
    requires
        v.len() == 4,
        plain(uri),
        plain(value),
    ensures
        ({
            let r = kind_of(t, v + uri + seq![0u8] + value + seq![0u8]);
            &&& decode_utf8(uri).len() > 0 ==> r == (TrackModel {
                kinds: t.kinds.push((decode_utf8(uri), decode_utf8(value))),
                ..t
            })
            &&& decode_utf8(uri).len() == 0 ==> r == t
        }),
{
    let h1 = v + uri;
    let h2 = h1 + seq![0u8];
    let h3 = h2 + value;
    let b = h3 + seq![0u8];
    lemma_whole(b);
    lemma_peel(b, 0, h3, seq![0u8]);
    lemma_peel(b, 0, h2, value);
    lemma_peel(b, 0, h1, seq![0u8]);
    lemma_peel(b, 0, v, uri);
    let p = h1.len() as int;
    lemma_at8(b, p, 0u8);
    lemma_at8(b, h3.len() as int, 0u8);
    lemma_cstr(b, 4, uri);
    lemma_cstr(b, p + 1, value);
}

/// The extended language of a track is a text, which may be ended by a zero.
pub proof fn law_elng_layout(t: TrackModel, v: Seq<u8>, tag: Seq<u8>, tail: Seq<u8>)
    requires
        v.len() == 4,
        plain(tag),
        tail.len() == 0 || tail[0] == 0,
        decode_utf8(tag).len() > 0,
    ensures
        elng_of(t, v + tag + tail) == (TrackModel { elng: Some(decode_utf8(tag)), ..t }),
{
    let b = v + tag + tail;
    lemma_whole(b);
    lemma_peel(b, 0, v + tag, tail);
    lemma_peel(b, 0, v, tag);
    if tail.len() > 0 {
        assert(b[4 + tag.len() as int] == tail[0]);
    }
    lemma_cstr(b, 4, tag);
}

/// A sub track is what its information says, with the sample groups in its definition; without information it is passed
/// over.
pub proof fn law_sub_track(t: TrackModel, b: Seq<u8>)
    ensures
        ({
            let (info, groups) = strk_from(b, 0, (None, Seq::empty()));
            &&& info is None ==> strk_of(t, b) == t
            &&& info is Some ==> strk_of(t, b) == (TrackModel {
                sub_tracks: t.sub_tracks.push(SubTrackModel { sample_groups: groups, ..info->Some_0 }),
                ..t
            })
        }),
{
}

}
