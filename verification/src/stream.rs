//! Streams: what a track tells its users.
use oxideav_core::CodecOptions;
use vstd::prelude::*;
use crate::boxes::{opt_view, views};
use crate::bytes::{copy_bytes, s64, to_i64};
use crate::cenc::TencModel;
use crate::numbers::{lemma_wrap_u64_add, length32, low32, wrap_u64, wrapped_add_u64};
use crate::options::{distinct_names, each, law_put, options_insert, options_new, options_of, put, Opts};
use crate::text::{
    bytes_from, code_or_marks, code_or_marks_string, dec, dec_string,
    fourcc_token, hex8, hex_from, is_empty, longs_from, numbered, numbered_string, numbers_from,
    push_bytes_dec, push_dec, push_hex, push_hex8, push_longs, push_numbers, push_sdec, push_tokens,
    sdec, sdec_string, text_from, token, tokens_from,
};
use crate::track::{
    CopyrightModel, CsgpBox, CsgpModel, CsgpPatternModel, CslgBox, MediaType, SaioBox, SaioModel,
    SaizBox, SaizModel, SbgpBox, SbgpModel, SdtpEntry, SgpdBox, SgpdModel, StsdEntry, SubSampleEntry,
    SubTrack, SubTrackModel, SubTrackSampleGroup, SubTrackSampleGroupModel, SubsBox, SubsEntryModel,
    SubsModel, Track, TrackModel, TselModel, VmhdBox,
};

verus! {

/// How audio samples are stored.
#[derive(Clone, Copy, Debug, PartialEq, Eq, Structural)]
pub enum SampleFormat {
    U8,
    S16,
    S24,
    S32,
}

/// What a decoder for a stream is made from.
pub struct CodecParams {
    pub codec_id: String,
    pub media_type: MediaType,
    pub channels: Option<u16>,
    pub sample_rate: Option<u32>,
    pub sample_format: Option<SampleFormat>,
    pub width: Option<u32>,
    pub height: Option<u32>,
    pub extradata: Vec<u8>,
    pub options: CodecOptions,
}

/// A stream of a file.
pub struct StreamInfo {
    pub index: u32,
    /// How many units of time there are in a second.
    pub timescale: u32,
    pub duration: Option<i64>,
    pub start_time: Option<i64>,
    pub params: CodecParams,
}

/// The model of `StreamInfo`.
pub ghost struct StreamModel {
    pub index: u32,
    pub timescale: u32,
    pub duration: Option<i64>,
    pub start_time: Option<i64>,
    pub codec_id: Seq<char>,
    pub media_type: MediaType,
    pub channels: Option<u16>,
    pub sample_rate: Option<u32>,
    pub sample_format: Option<SampleFormat>,
    pub width: Option<u32>,
    pub height: Option<u32>,
    pub extradata: Seq<u8>,
    pub options: Opts,
}

impl View for StreamInfo {
    type V = StreamModel;

    open spec fn view(&self) -> StreamModel {
        StreamModel {
            index: self.index,
            timescale: self.timescale,
            duration: self.duration,
            start_time: self.start_time,
            codec_id: self.params.codec_id@,
            media_type: self.params.media_type,
            channels: self.params.channels,
            sample_rate: self.params.sample_rate,
            sample_format: self.params.sample_format,
            width: self.params.width,
            height: self.params.height,
            extradata: self.params.extradata@,
            options: options_of(self.params.options),
        }
    }
}

/// Sets an option.
fn set(o: &mut CodecOptions, k: &str, v: String)
    ensures
        options_of(*final(o)) == put(options_of(*old(o)), k@, v@),
{
    options_insert(o, k.to_owned(), v)
}

/// The option for the protection scheme of a track.
pub open spec fn scheme_opts(o: Opts, scheme: Option<[u8; 4]>) -> Opts {
    match scheme {
        Some(s) => put(o, "protection_scheme"@, code_or_marks(s@)),
        None => o,
    }
}

fn set_scheme(o: &mut CodecOptions, t: &Track)
    ensures
        options_of(*final(o)) == scheme_opts(options_of(*old(o)), t@.protection_scheme),
{
    if let Some(s) = &t.protection_scheme {
        set(o, "protection_scheme", code_or_marks_string(s));
    }
}

/// The options for the encryption defaults of a track. The pattern is given from version 1 on, and
/// the constant initialization vector where there is one.
pub open spec fn tenc_opts(o: Opts, tenc: Option<TencModel>) -> Opts {
    match tenc {
        None => o,
        Some(t) => {
            let o1 = put(o, "cenc_default_kid"@, hex_from(Seq::empty(), t.default_kid@, 0));
            let o2 = put(o1, "cenc_default_is_protected"@, dec(t.default_is_protected as nat));
            let o3 = put(o2, "cenc_default_iv_size"@, dec(t.default_per_sample_iv_size as nat));
            let o4 = put(o3, "cenc_tenc_version"@, dec(t.version as nat));
            let o5 = if t.version >= 1 {
                put(
                    put(o4, "cenc_default_crypt_byte_block"@, dec(t.default_crypt_byte_block as nat)),
                    "cenc_default_skip_byte_block"@,
                    dec(t.default_skip_byte_block as nat),
                )
            } else {
                o4
            };
            match t.default_constant_iv {
                Some(iv) => put(o5, "cenc_default_constant_iv"@, hex_from(Seq::empty(), iv, 0)),
                None => o5,
            }
        },
    }
}

/// The hexadecimal digits of bytes.
fn hex_string(b: &[u8]) -> (s: String)
    ensures
        s@ == hex_from(Seq::empty(), b@, 0),
{
    let mut s = String::new();
    proof { assert(s@ =~= Seq::<char>::empty()); }
    push_hex(&mut s, b);
    s
}

fn set_tenc(o: &mut CodecOptions, t: &Track)
    ensures
        options_of(*final(o)) == tenc_opts(options_of(*old(o)), t@.tenc),
{
    if let Some(tenc) = &t.tenc {
        set(o, "cenc_default_kid", hex_string(tenc.default_kid.as_slice()));
        set(o, "cenc_default_is_protected", dec_string(tenc.default_is_protected as u64));
        set(o, "cenc_default_iv_size", dec_string(tenc.default_per_sample_iv_size as u64));
        set(o, "cenc_tenc_version", dec_string(tenc.version as u64));
        if tenc.version >= 1 {
            set(o, "cenc_default_crypt_byte_block", dec_string(tenc.default_crypt_byte_block as u64));
            set(o, "cenc_default_skip_byte_block", dec_string(tenc.default_skip_byte_block as u64));
        }
        if let Some(iv) = &tenc.default_constant_iv {
            set(o, "cenc_default_constant_iv", hex_string(iv.as_slice()));
        }
    }
}

/// The option for the language of a track.
pub open spec fn elng_opts(o: Opts, elng: Option<Seq<char>>) -> Opts {
    match elng {
        Some(tag) => put(o, "language"@, tag),
        None => o,
    }
}

fn set_elng(o: &mut CodecOptions, t: &Track)
    ensures
        options_of(*final(o)) == elng_opts(options_of(*old(o)), t@.elng),
{
    if let Some(tag) = &t.elng {
        set(o, "language", tag.clone());
    }
}

/// The option for the references of one type: the tracks. References to no track are left out.
pub open spec fn tref_step(o: Opts, i: int, r: (Seq<u8>, Seq<u32>)) -> Opts {
    if r.1.len() == 0 {
        o
    } else {
        put(o, "tref_"@ + token(r.0), numbers_from(Seq::empty(), r.1, 0, " "@))
    }
}

/// The options for references of a track from the `i`th on: the tracks, by type. References to no
/// track are left out.
pub open spec fn tref_opts(o: Opts, rows: Seq<(Seq<u8>, Seq<u32>)>, i: int) -> Opts {
    each(o, rows, i, |o: Opts, i: int, r: (Seq<u8>, Seq<u32>)| tref_step(o, i, r))
}

fn set_tref(o: &mut CodecOptions, t: &Track)
    ensures
        options_of(*final(o)) == tref_opts(options_of(*old(o)), t@.tref, 0),
{
    let ghost rows = views(t.tref@);
    let mut i: usize = 0;
    while i < t.tref.len()
        invariant
            i <= t.tref@.len(),
            rows == views(t.tref@),
            tref_opts(options_of(*old(o)), rows, 0) == tref_opts(options_of(*o), rows, i as int),
        decreases t.tref@.len() - i,
    {
        let row = &t.tref[i];
        assert(rows[i as int] == (row.0@, row.1@));
        if row.1.len() != 0 {
            let mut k = String::from_str("tref_");
            let name = fourcc_token(&row.0);
            k.append(name.as_str());
            let mut v = String::new();
            proof { assert(v@ =~= Seq::<char>::empty()); }
            push_numbers(&mut v, row.1.as_slice(), " ");
            options_insert(o, k, v);
        }
        i += 1;
    }
}

/// The option for the `i`th group: type and number.
pub open spec fn trgr_step(o: Opts, i: int, r: ([u8; 4], u32)) -> Opts {
    put(o, numbered("trgr_"@, i), token(r.0@) + " "@ + dec(r.1 as nat))
}

/// The options for the groups of a track from the `i`th on: type and number.
pub open spec fn trgr_opts(o: Opts, rows: Seq<([u8; 4], u32)>, i: int) -> Opts {
    each(o, rows, i, |o: Opts, i: int, r: ([u8; 4], u32)| trgr_step(o, i, r))
}

fn set_trgr(o: &mut CodecOptions, t: &Track)
    ensures
        options_of(*final(o)) == trgr_opts(options_of(*old(o)), t@.trgr, 0),
{
    let mut i: usize = 0;
    while i < t.trgr.len()
        invariant
            i <= t.trgr@.len(),
            trgr_opts(options_of(*old(o)), t.trgr@, 0) == trgr_opts(options_of(*o), t.trgr@, i as int),
        decreases t.trgr@.len() - i,
    {
        let row = t.trgr[i];
        let mut v = fourcc_token(&row.0);
        v.append(" ");
        push_dec(&mut v, row.1 as u64);
        options_insert(o, numbered_string("trgr_", i), v);
        i += 1;
    }
}

/// The option for the `i`th kind: the scheme, and the value where there is one.
pub open spec fn kind_step(o: Opts, i: int, r: (Seq<char>, Seq<char>)) -> Opts {
    put(o, numbered("kind_"@, i), if r.1.len() == 0 { r.0 } else { r.0 + " "@ + r.1 })
}

/// The options for the kinds of a track from the `i`th on: the scheme, and the value where
/// there is one.
pub open spec fn kind_opts(o: Opts, rows: Seq<(Seq<char>, Seq<char>)>, i: int) -> Opts {
    each(o, rows, i, |o: Opts, i: int, r: (Seq<char>, Seq<char>)| kind_step(o, i, r))
}

fn set_kinds(o: &mut CodecOptions, t: &Track)
    ensures
        options_of(*final(o)) == kind_opts(options_of(*old(o)), t@.kinds, 0),
{
    let ghost rows = views(t.kinds@);
    let mut i: usize = 0;
    while i < t.kinds.len()
        invariant
            i <= t.kinds@.len(),
            rows == views(t.kinds@),
            kind_opts(options_of(*old(o)), rows, 0) == kind_opts(options_of(*o), rows, i as int),
        decreases t.kinds@.len() - i,
    {
        let row = &t.kinds[i];
        assert(rows[i as int] == (row.0@, row.1@));
        let mut v = row.0.clone();
        if !is_empty(&row.1) {
            v.append(" ");
            v.append(row.1.as_str());
        }
        options_insert(o, numbered_string("kind_", i), v);
        i += 1;
    }
}

/// Whether a byte is a lower-case letter.
pub open spec fn is_lower(b: u8) -> bool {
    0x61 <= b <= 0x7A
}

/// How far a byte is behind the one before the lower-case letters, around the end of its range.
pub open spec fn letter_number(b: u8) -> u8 {
    if b >= 0x60 { (b - 0x60) as u8 } else { (b + 0xA0) as u8 }
}

/// A language: its three letters, or the digits of the word that packs them where they are no
/// lower-case letters.
pub open spec fn language_text(l: [u8; 3]) -> Seq<char> {
    if is_lower(l@[0]) && is_lower(l@[1]) && is_lower(l@[2]) {
        seq![l@[0] as char, l@[1] as char, l@[2] as char]
    } else {
        hex8(
            ((letter_number(l@[0]) as u32) << 10u32) | ((letter_number(l@[1]) as u32) << 5u32) | (letter_number(
                l@[2],
            ) as u32),
        )
    }
}

fn to_letter_number(b: u8) -> (r: u8)
    ensures
        r == letter_number(b),
{
    if b >= 0x60 { b - 0x60 } else { b + 0xA0 }
}

fn language_string(l: &[u8; 3]) -> (s: String)
    ensures
        s@ == language_text(*l),
{
    let (a, b, c) = (l[0], l[1], l[2]);
    let mut s = String::new();
    if 0x61 <= a && a <= 0x7A && 0x61 <= b && b <= 0x7A && 0x61 <= c && c <= 0x7A {
        s.push(a as char);
        s.push(b as char);
        s.push(c as char);
    } else {
        let word: u32 = ((to_letter_number(a) as u32) << 10u32) | ((to_letter_number(b) as u32) << 5u32) | (
        to_letter_number(c) as u32);
        push_hex8(&mut s, word);
    }
    proof { assert(s@ =~= language_text(*l)); }
    s
}

/// The options for the `i`th copyright notice: the notice unless it is empty, and its language.
pub open spec fn cprt_step(o: Opts, i: int, r: CopyrightModel) -> Opts {
    put(
        if r.notice.len() == 0 { o } else { put(o, numbered("copyright_"@, i), r.notice) },
        numbered("copyright_"@, i) + "_lang"@,
        language_text(r.language),
    )
}

/// The options for the copyright notices of a track from the `i`th on: the notice unless it is
/// empty, and its language.
pub open spec fn cprt_opts(o: Opts, rows: Seq<CopyrightModel>, i: int) -> Opts {
    each(o, rows, i, |o: Opts, i: int, r: CopyrightModel| cprt_step(o, i, r))
}

fn set_copyrights(o: &mut CodecOptions, t: &Track)
    ensures
        options_of(*final(o)) == cprt_opts(options_of(*old(o)), t@.copyrights, 0),
{
    let ghost rows = views(t.copyrights@);
    let mut i: usize = 0;
    while i < t.copyrights.len()
        invariant
            i <= t.copyrights@.len(),
            rows == views(t.copyrights@),
            cprt_opts(options_of(*old(o)), rows, 0) == cprt_opts(options_of(*o), rows, i as int),
        decreases t.copyrights@.len() - i,
    {
        let row = &t.copyrights[i];
        assert(rows[i as int] == row@);
        if !is_empty(&row.notice) {
            options_insert(o, numbered_string("copyright_", i), row.notice.clone());
        }
        let mut k = numbered_string("copyright_", i);
        k.append("_lang");
        options_insert(o, k, language_string(&row.language));
        i += 1;
    }
}

/// The options for the selection of a track.
pub open spec fn tsel_opts(o: Opts, tsel: Option<TselModel>) -> Opts {
    match tsel {
        None => o,
        Some(t) => {
            let o1 = put(o, "tsel_switch_group"@, sdec(t.switch_group as int));
            if t.attribute_list.len() == 0 {
                o1
            } else {
                put(o1, "tsel_attributes"@, tokens_from(Seq::empty(), t.attribute_list, 0, " "@))
            }
        },
    }
}

fn set_tsel(o: &mut CodecOptions, t: &Track)
    ensures
        options_of(*final(o)) == tsel_opts(options_of(*old(o)), t@.tsel),
{
    if let Some(tsel) = &t.tsel {
        set(o, "tsel_switch_group", sdec_string(tsel.switch_group as i64));
        if tsel.attribute_list.len() != 0 {
            let mut v = String::new();
            proof { assert(v@ =~= Seq::<char>::empty()); }
            push_tokens(&mut v, &tsel.attribute_list, " ");
            set(o, "tsel_attributes", v);
        }
    }
}

/// A sample group of a sub-track: its type and its descriptions.
pub open spec fn group_text(acc: Seq<char>, g: SubTrackSampleGroupModel) -> Seq<char> {
    numbers_from(acc + token(g.grouping_type@) + ":"@, g.group_description_indices, 0, ","@)
}

/// The sample groups of a sub-track from the `i`th on, behind `acc`.
pub open spec fn groups_from(acc: Seq<char>, rows: Seq<SubTrackSampleGroupModel>, i: int) -> Seq<char>
    decreases rows.len() - i,
{
    if i >= rows.len() {
        acc
    } else {
        groups_from(group_text(if i == 0 { acc } else { acc + ";"@ }, rows[i]), rows, i + 1)
    }
}

/// A sub-track: its number and groups, its attributes and its sample groups where it has any.
pub open spec fn sub_track_text(s: SubTrackModel) -> Seq<char> {
    let a = "id="@ + dec(s.sub_track_id as nat) + " switch="@ + sdec(s.switch_group as int) + " alt="@ + sdec(
        s.alternate_group as int,
    );
    let b = if s.attribute_list.len() == 0 { a } else { tokens_from(a + " attrs="@, s.attribute_list, 0, " "@) };
    if s.sample_groups.len() == 0 { b } else { groups_from(b + " stsg="@, s.sample_groups, 0) }
}

fn push_groups(out: &mut String, groups: &Vec<SubTrackSampleGroup>)
    ensures
        final(out)@ == groups_from(old(out)@, views(groups@), 0),
{
    let ghost rows = views(groups@);
    let mut i: usize = 0;
    while i < groups.len()
        invariant
            i <= groups@.len(),
            rows == views(groups@),
            groups_from(old(out)@, rows, 0) == groups_from(out@, rows, i as int),
        decreases groups@.len() - i,
    {
        let g = &groups[i];
        assert(rows[i as int] == g@);
        if i != 0 {
            out.append(";");
        }
        let name = fourcc_token(&g.grouping_type);
        out.append(name.as_str());
        out.append(":");
        push_numbers(out, g.group_description_indices.as_slice(), ",");
        i += 1;
    }
}

fn sub_track_string(s: &SubTrack) -> (v: String)
    ensures
        v@ == sub_track_text(s@),
{
    let mut v = String::from_str("id=");
    push_dec(&mut v, s.sub_track_id as u64);
    v.append(" switch=");
    push_sdec(&mut v, s.switch_group as i64);
    v.append(" alt=");
    push_sdec(&mut v, s.alternate_group as i64);
    if s.attribute_list.len() != 0 {
        v.append(" attrs=");
        push_tokens(&mut v, &s.attribute_list, " ");
    }
    if s.sample_groups.len() != 0 {
        v.append(" stsg=");
        push_groups(&mut v, &s.sample_groups);
    }
    v
}

/// The option for the `i`th sub-track.
pub open spec fn strk_step(o: Opts, i: int, r: SubTrackModel) -> Opts {
    put(o, numbered("subtrack_"@, i), sub_track_text(r))
}

/// The options for the sub-tracks of a track from the `i`th on.
pub open spec fn strk_opts(o: Opts, rows: Seq<SubTrackModel>, i: int) -> Opts {
    each(o, rows, i, |o: Opts, i: int, r: SubTrackModel| strk_step(o, i, r))
}

fn set_sub_tracks(o: &mut CodecOptions, t: &Track)
    ensures
        options_of(*final(o)) == strk_opts(options_of(*old(o)), t@.sub_tracks, 0),
{
    let ghost rows = views(t.sub_tracks@);
    let mut i: usize = 0;
    while i < t.sub_tracks.len()
        invariant
            i <= t.sub_tracks@.len(),
            rows == views(t.sub_tracks@),
            strk_opts(options_of(*old(o)), rows, 0) == strk_opts(options_of(*o), rows, i as int),
        decreases t.sub_tracks@.len() - i,
    {
        assert(rows[i as int] == t.sub_tracks@[i as int]@);
        options_insert(o, numbered_string("subtrack_", i), sub_track_string(&t.sub_tracks[i]));
        i += 1;
    }
}

/// The options for how composition times relate to decode times.
pub open spec fn cslg_opts(o: Opts, cslg: Option<CslgBox>) -> Opts {
    match cslg {
        None => o,
        Some(c) => {
            let o1 = put(o, "cslg_composition_to_dts_shift"@, sdec(c.composition_to_dts_shift as int));
            let o2 = put(o1, "cslg_least_decode_to_display_delta"@, sdec(c.least_decode_to_display_delta as int));
            let o3 = put(o2, "cslg_greatest_decode_to_display_delta"@, sdec(c.greatest_decode_to_display_delta as int));
            let o4 = put(o3, "cslg_composition_start_time"@, sdec(c.composition_start_time as int));
            put(o4, "cslg_composition_end_time"@, sdec(c.composition_end_time as int))
        },
    }
}

fn set_cslg(o: &mut CodecOptions, t: &Track)
    ensures
        options_of(*final(o)) == cslg_opts(options_of(*old(o)), t@.cslg),
{
    if let Some(c) = &t.cslg {
        set(o, "cslg_composition_to_dts_shift", sdec_string(c.composition_to_dts_shift));
        set(o, "cslg_least_decode_to_display_delta", sdec_string(c.least_decode_to_display_delta));
        set(o, "cslg_greatest_decode_to_display_delta", sdec_string(c.greatest_decode_to_display_delta));
        set(o, "cslg_composition_start_time", sdec_string(c.composition_start_time));
        set(o, "cslg_composition_end_time", sdec_string(c.composition_end_time));
    }
}

/// The options for how video is composed.
pub open spec fn vmhd_opts(o: Opts, vmhd: Option<VmhdBox>) -> Opts {
    match vmhd {
        None => o,
        Some(v) => put(
            put(o, "vmhd_graphicsmode"@, dec(v.graphicsmode as nat)),
            "vmhd_opcolor"@,
            Seq::empty() + dec(v.opcolor@[0] as nat) + " "@ + dec(v.opcolor@[1] as nat) + " "@ + dec(
                v.opcolor@[2] as nat,
            ),
        ),
    }
}

fn set_vmhd(o: &mut CodecOptions, t: &Track)
    ensures
        options_of(*final(o)) == vmhd_opts(options_of(*old(o)), t@.vmhd),
{
    if let Some(v) = &t.vmhd {
        set(o, "vmhd_graphicsmode", dec_string(v.graphicsmode as u64));
        let mut s = String::new();
        proof { assert(s@ =~= Seq::<char>::empty()); }
        push_dec(&mut s, v.opcolor[0] as u64);
        s.append(" ");
        push_dec(&mut s, v.opcolor[1] as u64);
        s.append(" ");
        push_dec(&mut s, v.opcolor[2] as u64);
        set(o, "vmhd_opcolor", s);
    }
}

/// The option for the `i`th shadow sync sample.
pub open spec fn stsh_step(o: Opts, i: int, r: (u32, u32)) -> Opts {
    put(o, numbered("stsh_"@, i), Seq::empty() + dec(r.0 as nat) + " "@ + dec(r.1 as nat))
}

/// The options for the shadow sync samples of a track from the `i`th on.
pub open spec fn stsh_opts(o: Opts, rows: Seq<(u32, u32)>, i: int) -> Opts {
    each(o, rows, i, |o: Opts, i: int, r: (u32, u32)| stsh_step(o, i, r))
}

fn set_stsh(o: &mut CodecOptions, t: &Track)
    ensures
        options_of(*final(o)) == stsh_opts(options_of(*old(o)), t@.stsh, 0),
{
    let mut i: usize = 0;
    while i < t.stsh.len()
        invariant
            i <= t.stsh@.len(),
            stsh_opts(options_of(*old(o)), t.stsh@, 0) == stsh_opts(options_of(*o), t.stsh@, i as int),
        decreases t.stsh@.len() - i,
    {
        let (shadowed, sync) = t.stsh[i];
        let mut v = String::new();
        proof { assert(v@ =~= Seq::<char>::empty()); }
        push_dec(&mut v, shadowed as u64);
        v.append(" ");
        push_dec(&mut v, sync as u64);
        options_insert(o, numbered_string("stsh_", i), v);
        i += 1;
    }
}

/// The option for the `i`th sample description, numbered from 1.
pub open spec fn stsd_rows_step(o: Opts, i: int, r: StsdEntry) -> Opts {
    put(o, numbered("stsd_"@, i + 1), token(r.format@) + " dref="@ + dec(r.data_reference_index as nat))
}

/// The options for the sample descriptions of a track from the `i`th on, numbered from 1.
pub open spec fn stsd_rows_opts(o: Opts, rows: Seq<StsdEntry>, i: int) -> Opts {
    each(o, rows, i, |o: Opts, i: int, r: StsdEntry| stsd_rows_step(o, i, r))
}

/// The options for the sample descriptions of a track, where there are several.
pub open spec fn stsd_opts(o: Opts, rows: Seq<StsdEntry>) -> Opts {
    if rows.len() <= 1 { o } else { stsd_rows_opts(put(o, "stsd_count"@, dec(rows.len())), rows, 0) }
}

fn set_stsd(o: &mut CodecOptions, t: &Track)
    ensures
        options_of(*final(o)) == stsd_opts(options_of(*old(o)), t@.stsd_entries),
{
    if t.stsd_entries.len() <= 1 {
        return;
    }
    set(o, "stsd_count", dec_string(t.stsd_entries.len() as u64));
    let mut i: usize = 0;
    while i < t.stsd_entries.len()
        invariant
            i <= t.stsd_entries@.len(),
            stsd_opts(options_of(*old(o)), t.stsd_entries@) == stsd_rows_opts(
                options_of(*o),
                t.stsd_entries@,
                i as int,
            ),
        decreases t.stsd_entries@.len() - i,
    {
        let row = t.stsd_entries[i];
        let mut v = fourcc_token(&row.format);
        v.append(" dref=");
        push_dec(&mut v, row.data_reference_index as u64);
        options_insert(o, numbered_string("stsd_", i + 1), v);
        i += 1;
    }
}

/// Where the text of a sample grouping starts: its type, and its parameter where it has one.
pub open spec fn grouping_text(grouping_type: [u8; 4], parameter: Option<u32>, name: Seq<char>) -> Seq<char> {
    match parameter {
        Some(p) => token(grouping_type@) + name + dec(p as nat),
        None => token(grouping_type@),
    }
}

fn grouping_string(grouping_type: &[u8; 4], parameter: Option<u32>, name: &str) -> (s: String)
    ensures
        s@ == grouping_text(*grouping_type, parameter, name@),
{
    let mut s = fourcc_token(grouping_type);
    if let Some(p) = parameter {
        s.append(name);
        push_dec(&mut s, p as u64);
    }
    s
}

/// The runs of a sample-to-group table from the `i`th on, behind `acc`.
pub open spec fn sbgp_runs(acc: Seq<char>, rows: Seq<(u32, u32)>, i: int) -> Seq<char> {
    text_from(acc, rows, i, |acc: Seq<char>, r: (u32, u32)| acc + " "@ + dec(r.0 as nat) + ":"@ + dec(r.1 as nat))
}

fn sbgp_string(b: &SbgpBox) -> (v: String)
    ensures
        v@ == sbgp_runs(grouping_text(b.grouping_type, b.grouping_type_parameter, " param="@), b.entries@, 0),
{
    let mut v = grouping_string(&b.grouping_type, b.grouping_type_parameter, " param=");
    let ghost start = v@;
    let mut i: usize = 0;
    while i < b.entries.len()
        invariant
            i <= b.entries@.len(),
            sbgp_runs(start, b.entries@, 0) == sbgp_runs(v@, b.entries@, i as int),
        decreases b.entries@.len() - i,
    {
        let (count, idx) = b.entries[i];
        v.append(" ");
        push_dec(&mut v, count as u64);
        v.append(":");
        push_dec(&mut v, idx as u64);
        i += 1;
    }
    v
}

/// The option for the `i`th sample-to-group table.
pub open spec fn sbgp_step(o: Opts, i: int, r: SbgpModel) -> Opts {
    put(
        o,
        numbered("sbgp_"@, i),
        sbgp_runs(grouping_text(r.grouping_type, r.grouping_type_parameter, " param="@), r.entries, 0),
    )
}

/// The options for the sample-to-group tables of a track from the `i`th on.
pub open spec fn sbgp_opts(o: Opts, rows: Seq<SbgpModel>, i: int) -> Opts {
    each(o, rows, i, |o: Opts, i: int, r: SbgpModel| sbgp_step(o, i, r))
}

fn set_sbgp(o: &mut CodecOptions, t: &Track)
    ensures
        options_of(*final(o)) == sbgp_opts(options_of(*old(o)), t@.sbgp, 0),
{
    let ghost rows = views(t.sbgp@);
    let mut i: usize = 0;
    while i < t.sbgp.len()
        invariant
            i <= t.sbgp@.len(),
            rows == views(t.sbgp@),
            sbgp_opts(options_of(*old(o)), rows, 0) == sbgp_opts(options_of(*o), rows, i as int),
        decreases t.sbgp@.len() - i,
    {
        assert(rows[i as int] == t.sbgp@[i as int]@);
        options_insert(o, numbered_string("sbgp_", i), sbgp_string(&t.sbgp[i]));
        i += 1;
    }
}

/// The descriptions of sample groups from the `i`th on in hexadecimal, behind `acc`.
pub open spec fn sgpd_entries_text(acc: Seq<char>, rows: Seq<Seq<u8>>, i: int) -> Seq<char> {
    text_from(acc, rows, i, |acc: Seq<char>, r: Seq<u8>| hex_from(acc + " "@, r, 0))
}

fn sgpd_string(b: &SgpdBox) -> (v: String)
    ensures
        v@ == sgpd_entries_text(
            grouping_text(b.grouping_type, b.default_sample_description_index, " default="@),
            views(b.entries@),
            0,
        ),
{
    let mut v = grouping_string(&b.grouping_type, b.default_sample_description_index, " default=");
    let ghost start = v@;
    let ghost rows = views(b.entries@);
    let mut i: usize = 0;
    while i < b.entries.len()
        invariant
            i <= b.entries@.len(),
            rows == views(b.entries@),
            sgpd_entries_text(start, rows, 0) == sgpd_entries_text(v@, rows, i as int),
        decreases b.entries@.len() - i,
    {
        assert(rows[i as int] == b.entries@[i as int]@);
        v.append(" ");
        push_hex(&mut v, b.entries[i].as_slice());
        i += 1;
    }
    v
}

/// The option for the `i`th list of descriptions of sample groups.
pub open spec fn sgpd_step(o: Opts, i: int, r: SgpdModel) -> Opts {
    put(
        o,
        numbered("sgpd_"@, i),
        sgpd_entries_text(
            grouping_text(r.grouping_type, r.default_sample_description_index, " default="@),
            r.entries,
            0,
        ),
    )
}

/// The options for the descriptions of sample groups of a track from the `i`th on.
pub open spec fn sgpd_opts(o: Opts, rows: Seq<SgpdModel>, i: int) -> Opts {
    each(o, rows, i, |o: Opts, i: int, r: SgpdModel| sgpd_step(o, i, r))
}

fn set_sgpd(o: &mut CodecOptions, t: &Track)
    ensures
        options_of(*final(o)) == sgpd_opts(options_of(*old(o)), t@.sgpd, 0),
{
    let ghost rows = views(t.sgpd@);
    let mut i: usize = 0;
    while i < t.sgpd.len()
        invariant
            i <= t.sgpd@.len(),
            rows == views(t.sgpd@),
            sgpd_opts(options_of(*old(o)), rows, 0) == sgpd_opts(options_of(*o), rows, i as int),
        decreases t.sgpd@.len() - i,
    {
        assert(rows[i as int] == t.sgpd@[i as int]@);
        options_insert(o, numbered_string("sgpd_", i), sgpd_string(&t.sgpd[i]));
        i += 1;
    }
}

/// The patterns of a compact sample-to-group table from the `i`th on, behind `acc`.
pub open spec fn csgp_patterns_text(acc: Seq<char>, rows: Seq<CsgpPatternModel>, i: int) -> Seq<char> {
    text_from(
        acc,
        rows,
        i,
        |acc: Seq<char>, r: CsgpPatternModel|
            numbers_from(acc + " "@ + dec(r.sample_count as nat) + "*"@, r.indices, 0, ","@),
    )
}

fn csgp_string(b: &CsgpBox) -> (v: String)
    ensures
        v@ == csgp_patterns_text(
            grouping_text(b.grouping_type, b.grouping_type_parameter, " param="@),
            views(b.patterns@),
            0,
        ),
{
    let mut v = grouping_string(&b.grouping_type, b.grouping_type_parameter, " param=");
    let ghost start = v@;
    let ghost rows = views(b.patterns@);
    let mut i: usize = 0;
    while i < b.patterns.len()
        invariant
            i <= b.patterns@.len(),
            rows == views(b.patterns@),
            csgp_patterns_text(start, rows, 0) == csgp_patterns_text(v@, rows, i as int),
        decreases b.patterns@.len() - i,
    {
        let p = &b.patterns[i];
        assert(rows[i as int] == p@);
        v.append(" ");
        push_dec(&mut v, p.sample_count as u64);
        v.append("*");
        push_numbers(&mut v, p.indices.as_slice(), ",");
        i += 1;
    }
    v
}

/// The option for the `i`th compact sample-to-group table.
pub open spec fn csgp_step(o: Opts, i: int, r: CsgpModel) -> Opts {
    put(
        o,
        numbered("csgp_"@, i),
        csgp_patterns_text(grouping_text(r.grouping_type, r.grouping_type_parameter, " param="@), r.patterns, 0),
    )
}

/// The options for the compact sample-to-group tables of a track from the `i`th on.
pub open spec fn csgp_opts(o: Opts, rows: Seq<CsgpModel>, i: int) -> Opts {
    each(o, rows, i, |o: Opts, i: int, r: CsgpModel| csgp_step(o, i, r))
}

fn set_csgp(o: &mut CodecOptions, t: &Track)
    ensures
        options_of(*final(o)) == csgp_opts(options_of(*old(o)), t@.csgp, 0),
{
    let ghost rows = views(t.csgp@);
    let mut i: usize = 0;
    while i < t.csgp.len()
        invariant
            i <= t.csgp@.len(),
            rows == views(t.csgp@),
            csgp_opts(options_of(*old(o)), rows, 0) == csgp_opts(options_of(*o), rows, i as int),
        decreases t.csgp@.len() - i,
    {
        assert(rows[i as int] == t.csgp@[i as int]@);
        options_insert(o, numbered_string("csgp_", i), csgp_string(&t.csgp[i]));
        i += 1;
    }
}

/// How many of the rows before the `n`th have a property.
pub open spec fn count<T>(rows: Seq<T>, n: int, f: spec_fn(T) -> bool) -> nat
    decreases n,
{
    if n <= 0 { 0 } else { count(rows, n - 1, f) + (if f(rows[n - 1]) { 1nat } else { 0nat }) }
}

/// How many of the first `n` samples are leading samples.
pub open spec fn leading_count(rows: Seq<SdtpEntry>, n: int) -> nat {
    count(rows, n, |e: SdtpEntry| e.is_leading == 1 || e.is_leading == 3)
}

/// How many of the first `n` samples depend on no other.
pub open spec fn independent_count(rows: Seq<SdtpEntry>, n: int) -> nat {
    count(rows, n, |e: SdtpEntry| e.sample_depends_on == 2)
}

/// How many of the first `n` samples no other depends on.
pub open spec fn disposable_count(rows: Seq<SdtpEntry>, n: int) -> nat {
    count(rows, n, |e: SdtpEntry| e.sample_is_depended_on == 2)
}

/// How many of the first `n` samples are coded redundantly.
pub open spec fn redundant_count(rows: Seq<SdtpEntry>, n: int) -> nat {
    count(rows, n, |e: SdtpEntry| e.sample_has_redundancy == 1)
}

/// The options that sum up how samples depend on others. Counts are given in 32 bits.
pub open spec fn sdtp_opts(o: Opts, rows: Seq<SdtpEntry>) -> Opts {
    let n = rows.len() as int;
    if n == 0 {
        o
    } else {
        let o1 = put(o, "sdtp_count"@, dec(rows.len()));
        let o2 = put(o1, "sdtp_leading_count"@, dec(low32(leading_count(rows, n) as int) as nat));
        let o3 = put(o2, "sdtp_independent_count"@, dec(low32(independent_count(rows, n) as int) as nat));
        let o4 = put(o3, "sdtp_disposable_count"@, dec(low32(disposable_count(rows, n) as int) as nat));
        put(o4, "sdtp_redundant_count"@, dec(low32(redundant_count(rows, n) as int) as nat))
    }
}

fn set_sdtp(o: &mut CodecOptions, t: &Track)
    ensures
        options_of(*final(o)) == sdtp_opts(options_of(*old(o)), t@.sdtp),
{
    let n: usize = t.sdtp.len();
    if n == 0 {
        return;
    }
    let mut leading: usize = 0;
    let mut independent: usize = 0;
    let mut disposable: usize = 0;
    let mut redundant: usize = 0;
    let mut i: usize = 0;
    while i < n
        invariant
            n == t.sdtp@.len(),
            i <= n,
            leading <= i,
            independent <= i,
            disposable <= i,
            redundant <= i,
            leading == leading_count(t.sdtp@, i as int),
            independent == independent_count(t.sdtp@, i as int),
            disposable == disposable_count(t.sdtp@, i as int),
            redundant == redundant_count(t.sdtp@, i as int),
        decreases n - i,
    {
        let e = t.sdtp[i];
        if e.is_leading == 1 || e.is_leading == 3 {
            leading += 1;
        }
        if e.sample_depends_on == 2 {
            independent += 1;
        }
        if e.sample_is_depended_on == 2 {
            disposable += 1;
        }
        if e.sample_has_redundancy == 1 {
            redundant += 1;
        }
        i += 1;
    }
    set(o, "sdtp_count", dec_string(n as u64));
    set(o, "sdtp_leading_count", dec_string(length32(leading, 0) as u64));
    set(o, "sdtp_independent_count", dec_string(length32(independent, 0) as u64));
    set(o, "sdtp_disposable_count", dec_string(length32(disposable, 0) as u64));
    set(o, "sdtp_redundant_count", dec_string(length32(redundant, 0) as u64));
}

/// The least of the first `n` numbers.
pub open spec fn least(rows: Seq<u16>, n: int) -> u16
    decreases n,
{
    if n <= 0 {
        u16::MAX
    } else if rows[n - 1] < least(rows, n - 1) {
        rows[n - 1]
    } else {
        least(rows, n - 1)
    }
}

/// The greatest of the first `n` numbers.
pub open spec fn greatest(rows: Seq<u16>, n: int) -> u16
    decreases n,
{
    if n <= 0 {
        0
    } else if rows[n - 1] > greatest(rows, n - 1) {
        rows[n - 1]
    } else {
        greatest(rows, n - 1)
    }
}

/// The sum of the first `n` numbers.
pub open spec fn total(rows: Seq<u16>, n: int) -> int
    decreases n,
{
    if n <= 0 { 0 } else { total(rows, n - 1) + rows[n - 1] }
}

/// The options that sum up the degradation priorities of samples.
pub open spec fn stdp_opts(o: Opts, rows: Seq<u16>) -> Opts {
    let n = rows.len() as int;
    if n == 0 {
        o
    } else {
        let o1 = put(o, "stdp_count"@, dec(rows.len()));
        let o2 = put(o1, "stdp_min"@, dec(least(rows, n) as nat));
        let o3 = put(o2, "stdp_max"@, dec(greatest(rows, n) as nat));
        put(o3, "stdp_sum"@, dec(wrap_u64(total(rows, n)) as nat))
    }
}

fn set_stdp(o: &mut CodecOptions, t: &Track)
    ensures
        options_of(*final(o)) == stdp_opts(options_of(*old(o)), t@.stdp),
{
    let n: usize = t.stdp.len();
    if n == 0 {
        return;
    }
    let mut lo: u16 = u16::MAX;
    let mut hi: u16 = 0;
    let mut sum: u64 = 0;
    let mut i: usize = 0;
    while i < n
        invariant
            n == t.stdp@.len(),
            i <= n,
            lo == least(t.stdp@, i as int),
            hi == greatest(t.stdp@, i as int),
            sum == wrap_u64(total(t.stdp@, i as int)),
        decreases n - i,
    {
        let p: u16 = t.stdp[i];
        if p < lo {
            lo = p;
        }
        if p > hi {
            hi = p;
        }
        proof { lemma_wrap_u64_add(total(t.stdp@, i as int), p as int); }
        sum = wrapped_add_u64(sum, p as u64);
        i += 1;
    }
    set(o, "stdp_count", dec_string(n as u64));
    set(o, "stdp_min", dec_string(lo as u64));
    set(o, "stdp_max", dec_string(hi as u64));
    set(o, "stdp_sum", dec_string(sum));
}

/// The greatest of the first `n` bytes.
pub open spec fn greatest_byte(rows: Seq<u8>, n: int) -> u8
    decreases n,
{
    if n <= 0 {
        0
    } else if rows[n - 1] > greatest_byte(rows, n - 1) {
        rows[n - 1]
    } else {
        greatest_byte(rows, n - 1)
    }
}

/// How many of the first `n` samples have padding.
pub open spec fn padded_count(rows: Seq<u8>, n: int) -> nat {
    count(rows, n, |p: u8| p != 0)
}

/// How many of the first `n` samples have a padding of `k` bits.
pub open spec fn pad_count(rows: Seq<u8>, n: int, k: u8) -> nat {
    count(rows, n, |p: u8| p % 8 == k)
}

/// How many samples have each padding.
pub open spec fn pad_histogram(rows: Seq<u8>) -> Seq<char> {
    let n = rows.len() as int;
    Seq::empty() + dec(pad_count(rows, n, 0)) + ":"@ + dec(pad_count(rows, n, 1)) + ":"@ + dec(pad_count(rows, n, 2))
        + ":"@ + dec(pad_count(rows, n, 3)) + ":"@ + dec(pad_count(rows, n, 4)) + ":"@ + dec(pad_count(rows, n, 5))
        + ":"@ + dec(pad_count(rows, n, 6)) + ":"@ + dec(pad_count(rows, n, 7))
}

/// The options that sum up the padding of samples.
pub open spec fn padb_opts(o: Opts, rows: Seq<u8>) -> Opts {
    let n = rows.len() as int;
    if n == 0 {
        o
    } else {
        let o1 = put(o, "padb_count"@, dec(rows.len()));
        let o2 = put(o1, "padb_max"@, dec(greatest_byte(rows, n) as nat));
        let o3 = put(o2, "padb_nonzero_count"@, dec(padded_count(rows, n)));
        put(o3, "padb_hist"@, pad_histogram(rows))
    }
}

fn count_pads(rows: &Vec<u8>, k: u8) -> (r: u64)
    ensures
        r == pad_count(rows@, rows@.len() as int, k),
{
    let mut r: u64 = 0;
    let mut i: usize = 0;
    while i < rows.len()
        invariant
            i <= rows@.len(),
            r <= i,
            r == pad_count(rows@, i as int, k),
        decreases rows@.len() - i,
    {
        if rows[i] % 8 == k {
            r += 1;
        }
        i += 1;
    }
    r
}

fn histogram_string(rows: &Vec<u8>) -> (s: String)
    ensures
        s@ == pad_histogram(rows@),
{
    let mut s = String::new();
    proof { assert(s@ =~= Seq::<char>::empty()); }
    push_dec(&mut s, count_pads(rows, 0));
    s.append(":");
    push_dec(&mut s, count_pads(rows, 1));
    s.append(":");
    push_dec(&mut s, count_pads(rows, 2));
    s.append(":");
    push_dec(&mut s, count_pads(rows, 3));
    s.append(":");
    push_dec(&mut s, count_pads(rows, 4));
    s.append(":");
    push_dec(&mut s, count_pads(rows, 5));
    s.append(":");
    push_dec(&mut s, count_pads(rows, 6));
    s.append(":");
    push_dec(&mut s, count_pads(rows, 7));
    s
}

fn set_padb(o: &mut CodecOptions, t: &Track)
    ensures
        options_of(*final(o)) == padb_opts(options_of(*old(o)), t@.padb),
{
    let n: usize = t.padb.len();
    if n == 0 {
        return;
    }
    let mut max: u8 = 0;
    let mut padded: u64 = 0;
    let mut i: usize = 0;
    while i < n
        invariant
            n == t.padb@.len(),
            i <= n,
            padded <= i,
            max == greatest_byte(t.padb@, i as int),
            padded == padded_count(t.padb@, i as int),
        decreases n - i,
    {
        let p: u8 = t.padb[i];
        if p > max {
            max = p;
        }
        if p != 0 {
            padded += 1;
        }
        i += 1;
    }
    set(o, "padb_count", dec_string(n as u64));
    set(o, "padb_max", dec_string(max as u64));
    set(o, "padb_nonzero_count", dec_string(padded));
    set(o, "padb_hist", histogram_string(&t.padb));
}

/// Subsamples from the `i`th on, behind `acc`.
pub open spec fn subsamples_text(acc: Seq<char>, rows: Seq<SubSampleEntry>, i: int) -> Seq<char>
    decreases rows.len() - i,
{
    if i >= rows.len() {
        acc
    } else {
        let s = rows[i];
        subsamples_text(
            (if i == 0 { acc } else { acc + ";"@ }) + dec(s.subsample_size as nat) + ","@ + dec(
                s.subsample_priority as nat,
            ) + ","@ + dec(s.discardable as nat) + ","@ + hex8(s.codec_specific_parameters),
            rows,
            i + 1,
        )
    }
}

/// The subsamples of samples from the `i`th on, behind `acc`.
pub open spec fn subs_entries_text(acc: Seq<char>, rows: Seq<SubsEntryModel>, i: int) -> Seq<char> {
    text_from(
        acc,
        rows,
        i,
        |acc: Seq<char>, r: SubsEntryModel|
            if r.subsamples.len() == 0 {
                acc + " delta="@ + dec(r.sample_delta as nat)
            } else {
                subsamples_text(acc + " delta="@ + dec(r.sample_delta as nat) + ":"@, r.subsamples, 0)
            },
    )
}

/// Subsample information: its version and flags, and the subsamples of each sample.
pub open spec fn subs_text(b: SubsModel) -> Seq<char> {
    subs_entries_text("v"@ + dec(b.version as nat) + " flags="@ + dec(b.flags as nat), b.entries, 0)
}

fn push_subsamples(v: &mut String, rows: &Vec<SubSampleEntry>)
    ensures
        final(v)@ == subsamples_text(old(v)@, rows@, 0),
{
    let mut i: usize = 0;
    while i < rows.len()
        invariant
            i <= rows@.len(),
            subsamples_text(old(v)@, rows@, 0) == subsamples_text(v@, rows@, i as int),
        decreases rows@.len() - i,
    {
        let s = rows[i];
        if i != 0 {
            v.append(";");
        }
        push_dec(v, s.subsample_size as u64);
        v.append(",");
        push_dec(v, s.subsample_priority as u64);
        v.append(",");
        push_dec(v, s.discardable as u64);
        v.append(",");
        push_hex8(v, s.codec_specific_parameters);
        i += 1;
    }
}

fn subs_string(b: &SubsBox) -> (v: String)
    ensures
        v@ == subs_text(b@),
{
    let mut v = String::from_str("v");
    push_dec(&mut v, b.version as u64);
    v.append(" flags=");
    push_dec(&mut v, b.flags as u64);
    let ghost start = v@;
    let ghost rows = views(b.entries@);
    let mut i: usize = 0;
    while i < b.entries.len()
        invariant
            i <= b.entries@.len(),
            rows == views(b.entries@),
            subs_entries_text(start, rows, 0) == subs_entries_text(v@, rows, i as int),
        decreases b.entries@.len() - i,
    {
        let e = &b.entries[i];
        assert(rows[i as int] == e@);
        v.append(" delta=");
        push_dec(&mut v, e.sample_delta as u64);
        if e.subsamples.len() != 0 {
            v.append(":");
            push_subsamples(&mut v, &e.subsamples);
        }
        i += 1;
    }
    v
}

/// The option for the `i`th table of subsample information.
pub open spec fn subs_step(o: Opts, i: int, r: SubsModel) -> Opts {
    put(o, numbered("subs_"@, i), subs_text(r))
}

/// The options for the subsample information of a track from the `i`th on.
pub open spec fn subs_opts(o: Opts, rows: Seq<SubsModel>, i: int) -> Opts {
    each(o, rows, i, |o: Opts, i: int, r: SubsModel| subs_step(o, i, r))
}

fn set_subs(o: &mut CodecOptions, t: &Track)
    ensures
        options_of(*final(o)) == subs_opts(options_of(*old(o)), t@.subs, 0),
{
    let ghost rows = views(t.subs@);
    let mut i: usize = 0;
    while i < t.subs.len()
        invariant
            i <= t.subs@.len(),
            rows == views(t.subs@),
            subs_opts(options_of(*old(o)), rows, 0) == subs_opts(options_of(*o), rows, i as int),
        decreases t.subs@.len() - i,
    {
        assert(rows[i as int] == t.subs@[i as int]@);
        options_insert(o, numbered_string("subs_", i), subs_string(&t.subs[i]));
        i += 1;
    }
}

/// Sizes of auxiliary information.
pub open spec fn saiz_text(b: SaizModel) -> Seq<char> {
    let a = match b.aux_info_type {
        Some(code) => Seq::empty() + "type="@ + code_or_marks(code@) + " "@,
        None => Seq::empty(),
    };
    let c = match b.aux_info_type_parameter {
        Some(p) => a + "param="@ + dec(p as nat) + " "@,
        None => a,
    };
    let d = c + "default_size="@ + dec(b.default_sample_info_size as nat) + " count="@ + dec(b.sample_count as nat);
    if b.per_sample.len() == 0 { d } else { bytes_from(d + " sizes="@, b.per_sample, 0, ","@) }
}

fn saiz_string(b: &SaizBox) -> (v: String)
    ensures
        v@ == saiz_text(b@),
{
    let mut v = String::new();
    proof { assert(v@ =~= Seq::<char>::empty()); }
    if let Some(code) = &b.aux_info_type {
        v.append("type=");
        let s = code_or_marks_string(code);
        v.append(s.as_str());
        v.append(" ");
    }
    if let Some(p) = b.aux_info_type_parameter {
        v.append("param=");
        push_dec(&mut v, p as u64);
        v.append(" ");
    }
    v.append("default_size=");
    push_dec(&mut v, b.default_sample_info_size as u64);
    v.append(" count=");
    push_dec(&mut v, b.sample_count as u64);
    if b.per_sample.len() != 0 {
        v.append(" sizes=");
        push_bytes_dec(&mut v, b.per_sample.as_slice(), ",");
    }
    v
}

/// The option for the `i`th table of sizes of auxiliary information.
pub open spec fn saiz_step(o: Opts, i: int, r: SaizModel) -> Opts {
    put(o, numbered("saiz_"@, i), saiz_text(r))
}

/// The options for the sizes of auxiliary information of a track from the `i`th on.
pub open spec fn saiz_opts(o: Opts, rows: Seq<SaizModel>, i: int) -> Opts {
    each(o, rows, i, |o: Opts, i: int, r: SaizModel| saiz_step(o, i, r))
}

fn set_saiz(o: &mut CodecOptions, t: &Track)
    ensures
        options_of(*final(o)) == saiz_opts(options_of(*old(o)), t@.saiz, 0),
{
    let ghost rows = views(t.saiz@);
    let mut i: usize = 0;
    while i < t.saiz.len()
        invariant
            i <= t.saiz@.len(),
            rows == views(t.saiz@),
            saiz_opts(options_of(*old(o)), rows, 0) == saiz_opts(options_of(*o), rows, i as int),
        decreases t.saiz@.len() - i,
    {
        assert(rows[i as int] == t.saiz@[i as int]@);
        options_insert(o, numbered_string("saiz_", i), saiz_string(&t.saiz[i]));
        i += 1;
    }
}

/// Offsets of auxiliary information.
pub open spec fn saio_text(b: SaioModel) -> Seq<char> {
    let a = "v"@ + dec(b.version as nat);
    let c = match b.aux_info_type {
        Some(code) => a + " type="@ + code_or_marks(code@),
        None => a,
    };
    let d = match b.aux_info_type_parameter {
        Some(p) => c + " param="@ + dec(p as nat),
        None => c,
    };
    longs_from(d + " offsets="@, b.offsets, 0, ","@)
}

fn saio_string(b: &SaioBox) -> (v: String)
    ensures
        v@ == saio_text(b@),
{
    let mut v = String::from_str("v");
    push_dec(&mut v, b.version as u64);
    if let Some(code) = &b.aux_info_type {
        v.append(" type=");
        let s = code_or_marks_string(code);
        v.append(s.as_str());
    }
    if let Some(p) = b.aux_info_type_parameter {
        v.append(" param=");
        push_dec(&mut v, p as u64);
    }
    v.append(" offsets=");
    push_longs(&mut v, b.offsets.as_slice(), ",");
    v
}

/// The option for the `i`th table of offsets of auxiliary information.
pub open spec fn saio_step(o: Opts, i: int, r: SaioModel) -> Opts {
    put(o, numbered("saio_"@, i), saio_text(r))
}

/// The options for the offsets of auxiliary information of a track from the `i`th on.
pub open spec fn saio_opts(o: Opts, rows: Seq<SaioModel>, i: int) -> Opts {
    each(o, rows, i, |o: Opts, i: int, r: SaioModel| saio_step(o, i, r))
}

fn set_saio(o: &mut CodecOptions, t: &Track)
    ensures
        options_of(*final(o)) == saio_opts(options_of(*old(o)), t@.saio, 0),
{
    let ghost rows = views(t.saio@);
    let mut i: usize = 0;
    while i < t.saio.len()
        invariant
            i <= t.saio@.len(),
            rows == views(t.saio@),
            saio_opts(options_of(*old(o)), rows, 0) == saio_opts(options_of(*o), rows, i as int),
        decreases t.saio@.len() - i,
    {
        assert(rows[i as int] == t.saio@[i as int]@);
        options_insert(o, numbered_string("saio_", i), saio_string(&t.saio[i]));
        i += 1;
    }
}

/// The options that say who a track is and how it relates to others.
pub open spec fn identity_opts(o: Opts, t: TrackModel) -> Opts {
    let o1 = scheme_opts(o, t.protection_scheme);
    let o2 = tenc_opts(o1, t.tenc);
    let o3 = elng_opts(o2, t.elng);
    let o4 = tref_opts(o3, t.tref, 0);
    let o5 = trgr_opts(o4, t.trgr, 0);
    let o6 = kind_opts(o5, t.kinds, 0);
    let o7 = cprt_opts(o6, t.copyrights, 0);
    let o8 = tsel_opts(o7, t.tsel);
    strk_opts(o8, t.sub_tracks, 0)
}

/// The options that say what the sample tables of a track hold.
pub open spec fn table_opts(o: Opts, t: TrackModel) -> Opts {
    let o1 = cslg_opts(o, t.cslg);
    let o2 = vmhd_opts(o1, t.vmhd);
    let o3 = stsh_opts(o2, t.stsh, 0);
    let o4 = stsd_opts(o3, t.stsd_entries);
    let o5 = sbgp_opts(o4, t.sbgp, 0);
    let o6 = sgpd_opts(o5, t.sgpd, 0);
    let o7 = csgp_opts(o6, t.csgp, 0);
    let o8 = sdtp_opts(o7, t.sdtp);
    let o9 = stdp_opts(o8, t.stdp);
    let o10 = padb_opts(o9, t.padb);
    let o11 = subs_opts(o10, t.subs, 0);
    let o12 = saiz_opts(o11, t.saiz, 0);
    saio_opts(o12, t.saio, 0)
}

/// The options of the stream of a track.
pub open spec fn stream_options(t: TrackModel) -> Opts {
    table_opts(identity_opts(Seq::empty(), t), t)
}

fn set_identity(o: &mut CodecOptions, t: &Track)
    ensures
        options_of(*final(o)) == identity_opts(options_of(*old(o)), t@),
{
    set_scheme(o, t);
    set_tenc(o, t);
    set_elng(o, t);
    set_tref(o, t);
    set_trgr(o, t);
    set_kinds(o, t);
    set_copyrights(o, t);
    set_tsel(o, t);
    set_sub_tracks(o, t);
}

fn set_tables(o: &mut CodecOptions, t: &Track)
    ensures
        options_of(*final(o)) == table_opts(options_of(*old(o)), t@),
{
    set_cslg(o, t);
    set_vmhd(o, t);
    set_stsh(o, t);
    set_stsd(o, t);
    set_sbgp(o, t);
    set_sgpd(o, t);
    set_csgp(o, t);
    set_sdtp(o, t);
    set_stdp(o, t);
    set_padb(o, t);
    set_subs(o, t);
    set_saiz(o, t);
    set_saio(o, t);
}

/// The kind of media of a stream; what is not audio, video or subtitles is data.
pub open spec fn stream_media(m: MediaType) -> MediaType {
    match m {
        MediaType::Audio => MediaType::Audio,
        MediaType::Video => MediaType::Video,
        MediaType::Subtitle => MediaType::Subtitle,
        _ => MediaType::Data,
    }
}

/// How the samples of a codec are stored, as far as it is known.
pub open spec fn stream_format(codec_id: Seq<char>, bits: Option<u16>) -> Option<SampleFormat> {
    if codec_id == "flac"@ {
        match bits {
            Some(8) => Some(SampleFormat::U8),
            Some(16) => Some(SampleFormat::S16),
            Some(24) => Some(SampleFormat::S24),
            Some(32) => Some(SampleFormat::S32),
            _ => None,
        }
    } else if codec_id == "pcm_s16le"@ {
        Some(SampleFormat::S16)
    } else {
        None
    }
}

fn sample_format(codec_id: &String, bits: Option<u16>) -> (r: Option<SampleFormat>)
    ensures
        r == stream_format(codec_id@, bits),
{
    if *codec_id == String::from_str("flac") {
        match bits {
            Some(b) => if b == 8 {
                Some(SampleFormat::U8)
            } else if b == 16 {
                Some(SampleFormat::S16)
            } else if b == 24 {
                Some(SampleFormat::S24)
            } else if b == 32 {
                Some(SampleFormat::S32)
            } else {
                None
            },
            None => None,
        }
    } else if *codec_id == String::from_str("pcm_s16le") {
        Some(SampleFormat::S16)
    } else {
        None
    }
}

/// The stream of a track whose codec is known.
pub open spec fn stream_of(index: u32, t: TrackModel, codec_id: Seq<char>) -> StreamModel {
    StreamModel {
        index,
        timescale: if t.timescale == 0 { 1 } else { t.timescale },
        duration: match t.duration {
            Some(d) => Some(s64(d)),
            None => None,
        },
        start_time: Some(0),
        codec_id,
        media_type: stream_media(t.media_type),
        channels: t.channels,
        sample_rate: t.sample_rate,
        sample_format: stream_format(codec_id, t.sample_size_bits),
        width: t.width,
        height: t.height,
        extradata: t.extradata,
        options: stream_options(t),
    }
}

/// Builds the stream of a track whose codec is known.
pub fn build_stream_info(index: u32, t: &Track, codec_id: String) -> (s: StreamInfo)
    ensures
        s@ == stream_of(index, t@, codec_id@),
{
    let sample_format = sample_format(&codec_id, t.sample_size_bits);
    let mut options = options_new();
    set_identity(&mut options, t);
    set_tables(&mut options, t);
    let media_type = match t.media_type {
        MediaType::Audio => MediaType::Audio,
        MediaType::Video => MediaType::Video,
        MediaType::Subtitle => MediaType::Subtitle,
        _ => MediaType::Data,
    };
    StreamInfo {
        index,
        timescale: if t.timescale == 0 { 1 } else { t.timescale },
        duration: match t.duration {
            Some(d) => Some(to_i64(d)),
            None => None,
        },
        start_time: Some(0),
        params: CodecParams {
            codec_id,
            media_type,
            channels: t.channels,
            sample_rate: t.sample_rate,
            sample_format,
            width: t.width,
            height: t.height,
            extradata: copy_bytes(t.extradata.as_slice()),
            options,
        },
    }
}

/// How a codec is asked for.
#[derive(Clone, Copy, Debug, PartialEq, Eq)]
pub enum CodecQuery {
    /// By the object type of an elementary stream descriptor.
    ObjectType(u8),
    /// By the code of a sample entry.
    Fourcc([u8; 4]),
}

/// What is next in the search for the codec of a track.
#[derive(Clone, Debug, PartialEq, Eq)]
pub enum CodecStep {
    /// The codecs are to be asked.
    Ask(CodecQuery),
    /// This is the codec.
    Found(String),
    /// No codec has answered: the code of the sample entry, and the object type where there is one, name it.
    FallBack([u8; 4], Option<u8>),
}

/// The model of `CodecStep`.
pub ghost enum CodecStepModel {
    Ask(CodecQuery),
    Found(Seq<char>),
    FallBack([u8; 4], Option<u8>),
}

impl View for CodecStep {
    type V = CodecStepModel;

    open spec fn view(&self) -> CodecStepModel {
        match *self {
            CodecStep::Ask(q) => CodecStepModel::Ask(q),
            CodecStep::Found(id) => CodecStepModel::Found(id@),
            CodecStep::FallBack(code, oti) => CodecStepModel::FallBack(code, oti),
        }
    }
}

/// What is next in the search for the codec of a track, when `last` was asked and answered. The object type
/// is asked for first, where there is one; the code of the sample entry only where there is none or nothing
/// has answered to it.
pub open spec fn codec_step(t: TrackModel, last: Option<CodecQuery>, answer: Option<Seq<char>>) -> CodecStepModel {
    match last {
        None => match t.esds_oti {
            Some(oti) => CodecStepModel::Ask(CodecQuery::ObjectType(oti)),
            None => CodecStepModel::Ask(CodecQuery::Fourcc(t.codec_id_fourcc)),
        },
        Some(q) => match (q, answer) {
            (_, Some(id)) => CodecStepModel::Found(id),
            (CodecQuery::ObjectType(_), None) => CodecStepModel::Ask(CodecQuery::Fourcc(t.codec_id_fourcc)),
            (CodecQuery::Fourcc(_), None) => CodecStepModel::FallBack(t.codec_id_fourcc, t.esds_oti),
        },
    }
}

/// Says what is next in the search for the codec of a track. The search starts with nothing asked; `answer`
/// is what the codecs have said to `last`.
pub fn next_codec_step(t: &Track, last: Option<CodecQuery>, answer: Option<String>) -> (r: CodecStep)
    ensures
        r@ == codec_step(t@, last, opt_view(answer)),
{
    match last {
        None => match t.esds_oti {
            Some(oti) => CodecStep::Ask(CodecQuery::ObjectType(oti)),
            None => CodecStep::Ask(CodecQuery::Fourcc(t.codec_id_fourcc)),
        },
        Some(q) => match answer {
            Some(id) => CodecStep::Found(id),
            None => match q {
                CodecQuery::ObjectType(_) => CodecStep::Ask(CodecQuery::Fourcc(t.codec_id_fourcc)),
                CodecQuery::Fourcc(_) => CodecStep::FallBack(t.codec_id_fourcc, t.esds_oti),
            },
        },
    }
}

/// The search for the codec of a track among codecs that answer as `ask` says, from behind `last` on and
/// with at most `n` more questions: what has been asked, behind `asked`, and what it has come to.
pub open spec fn codec_search(
    t: TrackModel,
    ask: spec_fn(CodecQuery) -> Option<Seq<char>>,
    last: Option<CodecQuery>,
    asked: Seq<CodecQuery>,
    n: nat,
) -> (Seq<CodecQuery>, CodecStepModel)
    decreases n,
{
    let answer = match last {
        Some(q) => ask(q),
        None => None,
    };
    match codec_step(t, last, answer) {
        CodecStepModel::Ask(q) if n > 0 => codec_search(t, ask, Some(q), asked.push(q), (n - 1) as nat),
        step => (asked, step),
    }
}

/// The search for a codec ends behind at most two questions, whatever the codecs answer. They are asked for
/// the object type exactly where there is one, and behind it for the code of the sample entry exactly where
/// there is none or nothing has answered to it. The first answer is the codec; without one the code and the
/// object type name it.
pub proof fn law_codec_search(t: TrackModel, ask: spec_fn(CodecQuery) -> Option<Seq<char>>, n: nat)
    requires
        n >= 2,
    ensures
        ({
            let by_code = CodecQuery::Fourcc(t.codec_id_fourcc);
            let none = CodecStepModel::FallBack(t.codec_id_fourcc, t.esds_oti);
            let (asked, step) = codec_search(t, ask, None, Seq::empty(), n);
            match t.esds_oti {
                Some(oti) => {
                    let by_type = CodecQuery::ObjectType(oti);
                    match ask(by_type) {
                        Some(id) => asked == seq![by_type] && step == CodecStepModel::Found(id),
                        None => asked == seq![by_type, by_code] && step == (match ask(by_code) {
                            Some(id) => CodecStepModel::Found(id),
                            None => none,
                        }),
                    }
                },
                None => asked == seq![by_code] && step == (match ask(by_code) {
                    Some(id) => CodecStepModel::Found(id),
                    None => none,
                }),
            }
        }),
{
    reveal_with_fuel(codec_search, 3);
    let by_code = CodecQuery::Fourcc(t.codec_id_fourcc);
    let (asked, step) = codec_search(t, ask, None, Seq::empty(), n);
    match t.esds_oti {
        Some(oti) => {
            let by_type = CodecQuery::ObjectType(oti);
            if ask(by_type) is Some {
                assert(asked =~= seq![by_type]);
            } else {
                assert(asked =~= seq![by_type, by_code]);
            }
        },
        None => {
            assert(asked =~= seq![by_code]);
        },
    }
}

/// A track of which nothing is known has a stream without options.
pub proof fn law_blank_track_no_options()
    ensures
        stream_options(TrackModel::blank()) == Opts::empty(),
{
}

/// What holds of options and is kept by every step holds behind all rows.
proof fn lemma_each_keeps<T>(o: Opts, rows: Seq<T>, i: int, f: spec_fn(Opts, int, T) -> Opts)
    requires
        distinct_names(o),
        forall|o: Opts, i: int, r: T| distinct_names(o) ==> distinct_names(#[trigger] f(o, i, r)),
    ensures
        distinct_names(each(o, rows, i, f)),
    decreases rows.len() - i,
{
    if i < rows.len() {
        lemma_each_keeps(f(o, i, rows[i]), rows, i + 1, f);
    }
}

/// Setting an option keeps names distinct.
proof fn lemma_put_distinct()
    ensures
        forall|o: Opts, k: Seq<char>, v: Seq<char>| distinct_names(o) ==> distinct_names(#[trigger] put(o, k, v)),
{
    assert forall|o: Opts, k: Seq<char>, v: Seq<char>| distinct_names(o) implies distinct_names(#[trigger] put(o, k, v)) by {
        law_put(o, k, v, k);
    }
}

proof fn lemma_identity_distinct(o: Opts, t: TrackModel)
    requires
        distinct_names(o),
    ensures
        distinct_names(identity_opts(o, t)),
{
    lemma_put_distinct();
    let o3 = elng_opts(tenc_opts(scheme_opts(o, t.protection_scheme), t.tenc), t.elng);
    lemma_each_keeps(o3, t.tref, 0, |o: Opts, i: int, r: (Seq<u8>, Seq<u32>)| tref_step(o, i, r));
    let o4 = tref_opts(o3, t.tref, 0);
    lemma_each_keeps(o4, t.trgr, 0, |o: Opts, i: int, r: ([u8; 4], u32)| trgr_step(o, i, r));
    let o5 = trgr_opts(o4, t.trgr, 0);
    lemma_each_keeps(o5, t.kinds, 0, |o: Opts, i: int, r: (Seq<char>, Seq<char>)| kind_step(o, i, r));
    let o6 = kind_opts(o5, t.kinds, 0);
    lemma_each_keeps(o6, t.copyrights, 0, |o: Opts, i: int, r: CopyrightModel| cprt_step(o, i, r));
    let o8 = tsel_opts(cprt_opts(o6, t.copyrights, 0), t.tsel);
    lemma_each_keeps(o8, t.sub_tracks, 0, |o: Opts, i: int, r: SubTrackModel| strk_step(o, i, r));
}

proof fn lemma_table_distinct(o: Opts, t: TrackModel)
    requires
        distinct_names(o),
    ensures
        distinct_names(table_opts(o, t)),
{
    lemma_put_distinct();
    let o2 = vmhd_opts(cslg_opts(o, t.cslg), t.vmhd);
    lemma_each_keeps(o2, t.stsh, 0, |o: Opts, i: int, r: (u32, u32)| stsh_step(o, i, r));
    let o3 = stsh_opts(o2, t.stsh, 0);
    let counted = put(o3, "stsd_count"@, dec(t.stsd_entries.len()));
    lemma_each_keeps(counted, t.stsd_entries, 0, |o: Opts, i: int, r: StsdEntry| stsd_rows_step(o, i, r));
    let o4 = stsd_opts(o3, t.stsd_entries);
    lemma_each_keeps(o4, t.sbgp, 0, |o: Opts, i: int, r: SbgpModel| sbgp_step(o, i, r));
    let o5 = sbgp_opts(o4, t.sbgp, 0);
    lemma_each_keeps(o5, t.sgpd, 0, |o: Opts, i: int, r: SgpdModel| sgpd_step(o, i, r));
    let o6 = sgpd_opts(o5, t.sgpd, 0);
    lemma_each_keeps(o6, t.csgp, 0, |o: Opts, i: int, r: CsgpModel| csgp_step(o, i, r));
    let o10 = padb_opts(stdp_opts(sdtp_opts(csgp_opts(o6, t.csgp, 0), t.sdtp), t.stdp), t.padb);
    lemma_each_keeps(o10, t.subs, 0, |o: Opts, i: int, r: SubsModel| subs_step(o, i, r));
    let o11 = subs_opts(o10, t.subs, 0);
    lemma_each_keeps(o11, t.saiz, 0, |o: Opts, i: int, r: SaizModel| saiz_step(o, i, r));
    let o12 = saiz_opts(o11, t.saiz, 0);
    lemma_each_keeps(o12, t.saio, 0, |o: Opts, i: int, r: SaioModel| saio_step(o, i, r));
}

/// No two options of a stream have the same name.
pub proof fn law_option_names_distinct(t: TrackModel)
    ensures
        distinct_names(stream_options(t)),
{
    lemma_identity_distinct(Seq::empty(), t);
    lemma_table_distinct(identity_opts(Seq::empty(), t), t);
}

/// What a codec may look at where its code alone does not settle it; what a track does not say is left out.
pub struct ProbeHints<'a> {
    pub header: Option<&'a [u8]>,
    pub bits: Option<u16>,
    pub channels: Option<u16>,
    pub sample_rate: Option<u32>,
    pub width: Option<u32>,
    pub height: Option<u32>,
}

/// What a track says of its codec.
pub fn build_ctx<'a>(t: &'a Track) -> (h: ProbeHints<'a>)
    ensures
        match h.header {
            Some(b) => b@ == t@.extradata && t@.extradata.len() > 0,
            None => t@.extradata.len() == 0,
        },
        h.bits == t@.sample_size_bits,
        h.channels == t@.channels,
        h.sample_rate == t@.sample_rate,
        h.width == t@.width,
        h.height == t@.height,
{
    ProbeHints {
        header: if t.extradata.len() == 0 { None } else { Some(t.extradata.as_slice()) },
        bits: t.sample_size_bits,
        channels: t.channels,
        sample_rate: t.sample_rate,
        width: t.width,
        height: t.height,
    }
}

}
