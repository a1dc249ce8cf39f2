//! What the options of a stream and the metadata of a file say of the boxes that they were made of.
use vstd::prelude::*;
use vstd::utf8::{decode_utf8, valid_utf8};
use crate::cenc::TencModel;
use crate::fragment::{SaiRecordModel, SencRecordModel};
use crate::meta::Metadata;
use crate::options::{put, Opts};
use crate::stream::{
    cprt_step, csgp_patterns_text, csgp_step, grouping_text, language_text, sbgp_runs, sbgp_step, scheme_opts,
    sgpd_entries_text, sgpd_step, stream_format, sub_track_text, subsamples_text, tenc_opts, SampleFormat,
};
use crate::summary::{each_meta, sai_meta, sai_text, senc_meta, senc_text};
use crate::text::{
    code_or_marks, dec, decoded_text, first_nul, hex2, hex8, hex_from, is_control, numbered, numbers_from, sdec,
    text_from, token, trim_nuls, trimmed, utf16_text, utf16_units, utf8_lossy,
};
use crate::textlaws::{joined, law_list};
use crate::track::{CopyrightModel, CsgpModel, CsgpPatternModel, SbgpModel, SgpdModel, SubSampleEntry, SubTrackModel};

verus! {

/// The options of a protected track: its key, whether samples are protected, the size of their vectors, the version,
/// the pattern where the version has one, and the vector that all samples share, where they do.
pub proof fn law_protection_options(o: Opts, t: TencModel)
    ensures
        ({
            let o1 = put(o, "cenc_default_kid"@, hex_from(Seq::empty(), t.default_kid@, 0));
            let o2 = put(o1, "cenc_default_is_protected"@, dec(t.default_is_protected as nat));
            let o3 = put(o2, "cenc_default_iv_size"@, dec(t.default_per_sample_iv_size as nat));
            let o4 = put(o3, "cenc_tenc_version"@, dec(t.version as nat));
            let o5 = put(o4, "cenc_default_crypt_byte_block"@, dec(t.default_crypt_byte_block as nat));
            let o6 = put(o5, "cenc_default_skip_byte_block"@, dec(t.default_skip_byte_block as nat));
            let plain = if t.version == 0 { o4 } else { o6 };
            &&& t.default_constant_iv is None ==> tenc_opts(o, Some(t)) == plain
            &&& t.default_constant_iv is Some ==> tenc_opts(o, Some(t)) == put(
                plain,
                "cenc_default_constant_iv"@,
                hex_from(Seq::empty(), t.default_constant_iv->Some_0, 0),
            )
        }),
        tenc_opts(o, None) == o,
        scheme_opts(o, None) == o,
{
}

/// The texts of the first `n` rows, one behind the other.
pub open spec fn concat<T>(rows: Seq<T>, n: int, g: spec_fn(T) -> Seq<char>) -> Seq<char>
    decreases n,
{
    if n <= 0 { Seq::empty() } else { concat(rows, n - 1, g) + g(rows[n - 1]) }
}

proof fn lemma_text_from<T>(
    acc: Seq<char>,
    rows: Seq<T>,
    i: int,
    f: spec_fn(Seq<char>, T) -> Seq<char>,
    g: spec_fn(T) -> Seq<char>,
)
    requires
        0 <= i <= rows.len(),
        forall|a: Seq<char>, r: T| #[trigger] f(a, r) == a + g(r),
    ensures
        text_from(acc + concat(rows, i, g), rows, i, f) == acc + concat(rows, rows.len() as int, g),
    decreases rows.len() - i,
{
    if i < rows.len() {
        let a = acc + concat(rows, i, g);
        assert(f(a, rows[i]) == a + g(rows[i]));
        assert(a + g(rows[i]) =~= acc + concat(rows, i + 1, g));
        lemma_text_from(acc, rows, i + 1, f, g);
    }
}

/// The start of the text of a sample group: its kind, and a number behind a name where it has one.
pub open spec fn group_start(kind: [u8; 4], parameter: Option<u32>, label: Seq<char>) -> Seq<char> {
    if parameter is Some { token(kind@) + label + dec(parameter->Some_0 as nat) } else { token(kind@) }
}

/// The option of a compact sample group has, for each pattern, the number of its samples and its indices.
pub proof fn law_csgp_option(o: Opts, i: int, x: CsgpModel)
    ensures
        csgp_step(o, i, x) == put(
            o,
            "csgp_"@ + dec(i as nat),
            group_start(x.grouping_type, x.grouping_type_parameter, " param="@) + concat(
                x.patterns,
                x.patterns.len() as int,
                |p: CsgpPatternModel|
                    " "@ + dec(p.sample_count as nat) + "*"@ + joined(
                        p.indices,
                        p.indices.len() as int,
                        ","@,
                        |k: u32| dec(k as nat),
                    ),
            ),
        ),
{
    let acc = grouping_text(x.grouping_type, x.grouping_type_parameter, " param="@);
    let f = |acc: Seq<char>, r: CsgpPatternModel|
        numbers_from(acc + " "@ + dec(r.sample_count as nat) + "*"@, r.indices, 0, ","@);
    let g = |p: CsgpPatternModel|
        " "@ + dec(p.sample_count as nat) + "*"@ + joined(p.indices, p.indices.len() as int, ","@, |k: u32| dec(k as nat));
    assert forall|a: Seq<char>, r: CsgpPatternModel| #[trigger] f(a, r) == a + g(r) by {
        law_list(a + " "@ + dec(r.sample_count as nat) + "*"@, r.indices, ","@, |k: u32| dec(k as nat));
        assert(f(a, r) =~= a + g(r));
    }
    lemma_text_from(acc, x.patterns, 0, f, g);
    assert(acc + concat(x.patterns, 0, g) =~= acc);
    assert(csgp_patterns_text(acc, x.patterns, 0) == text_from(acc, x.patterns, 0, f));
}

/// The option of a sample group has its runs, each a number of samples and their group.
pub proof fn law_sbgp_option(o: Opts, i: int, x: SbgpModel)
    ensures
        sbgp_step(o, i, x) == put(
            o,
            "sbgp_"@ + dec(i as nat),
            group_start(x.grouping_type, x.grouping_type_parameter, " param="@) + concat(
                x.entries,
                x.entries.len() as int,
                |r: (u32, u32)| " "@ + dec(r.0 as nat) + ":"@ + dec(r.1 as nat),
            ),
        ),
{
    let acc = grouping_text(x.grouping_type, x.grouping_type_parameter, " param="@);
    let f = |acc: Seq<char>, r: (u32, u32)| acc + " "@ + dec(r.0 as nat) + ":"@ + dec(r.1 as nat);
    let g = |r: (u32, u32)| " "@ + dec(r.0 as nat) + ":"@ + dec(r.1 as nat);
    assert forall|a: Seq<char>, r: (u32, u32)| #[trigger] f(a, r) == a + g(r) by {
        assert(f(a, r) =~= a + g(r));
    }
    lemma_text_from(acc, x.entries, 0, f, g);
    assert(acc + concat(x.entries, 0, g) =~= acc);
    assert(sbgp_runs(acc, x.entries, 0) == text_from(acc, x.entries, 0, f));
}

/// The option of sample group descriptions has each of them in hexadecimal digits.
pub proof fn law_sgpd_option(o: Opts, i: int, x: SgpdModel)
    ensures
        sgpd_step(o, i, x) == put(
            o,
            "sgpd_"@ + dec(i as nat),
            group_start(x.grouping_type, x.default_sample_description_index, " default="@) + concat(
                x.entries,
                x.entries.len() as int,
                |r: Seq<u8>| " "@ + hex_from(Seq::empty(), r, 0),
            ),
        ),
{
    let acc = grouping_text(x.grouping_type, x.default_sample_description_index, " default="@);
    let f = |acc: Seq<char>, r: Seq<u8>| hex_from(acc + " "@, r, 0);
    let g = |r: Seq<u8>| " "@ + hex_from(Seq::empty(), r, 0);
    assert forall|a: Seq<char>, r: Seq<u8>| #[trigger] f(a, r) == a + g(r) by {
        lemma_hex_acc(a + " "@, r, 0);
        lemma_hex_acc(Seq::empty(), r, 0);
        assert((a + " "@) + hex_rest(r, 0) =~= a + (" "@ + (Seq::<char>::empty() + hex_rest(r, 0))));
    }
    lemma_text_from(acc, x.entries, 0, f, g);
    assert(acc + concat(x.entries, 0, g) =~= acc);
    assert(sgpd_entries_text(acc, x.entries, 0) == text_from(acc, x.entries, 0, f));
}

spec fn hex_rest(b: Seq<u8>, i: int) -> Seq<char>
    decreases b.len() - i,
{
    if i >= b.len() { Seq::empty() } else { hex2(b[i]) + hex_rest(b, i + 1) }
}

proof fn lemma_hex_acc(acc: Seq<char>, b: Seq<u8>, i: int)
    ensures
        hex_from(acc, b, i) == acc + hex_rest(b, i),
    decreases b.len() - i,
{
    if i < b.len() {
        lemma_hex_acc(acc + hex2(b[i]), b, i + 1);
        assert(acc + hex2(b[i]) + hex_rest(b, i + 1) =~= acc + hex_rest(b, i));
    } else {
        assert(acc + hex_rest(b, i) =~= acc);
    }
}

/// Rows of metadata are put behind what there is, in order, each under a name with its number.
pub proof fn law_rows_of_metadata<T>(m: Metadata, rows: Seq<T>, label: Seq<char>, f: spec_fn(T) -> Seq<char>)
    ensures
        each_meta(m, rows, 0, label, f) == m + Seq::new(rows.len(), |i: int| (label + dec(i as nat), f(rows[i]))),
{
    let all = Seq::new(rows.len(), |i: int| (label + dec(i as nat), f(rows[i])));
    assert(m + all.take(0) =~= m);
    lemma_rows_of_metadata(m, rows, 0, label, f);
}

proof fn lemma_rows_of_metadata<T>(m: Metadata, rows: Seq<T>, i: int, label: Seq<char>, f: spec_fn(T) -> Seq<char>)
    requires
        0 <= i <= rows.len(),
    ensures
        ({
            let all = Seq::new(rows.len(), |i: int| (label + dec(i as nat), f(rows[i])));
            each_meta(m + all.take(i), rows, i, label, f) == m + all
        }),
    decreases rows.len() - i,
{
    let all = Seq::new(rows.len(), |i: int| (label + dec(i as nat), f(rows[i])));
    if i < rows.len() {
        let x = (numbered(label, i), f(rows[i]));
        assert((m + all.take(i)).push(x) =~= m + all.take(i + 1));
        lemma_rows_of_metadata(m, rows, i + 1, label, f);
    } else {
        assert(all.take(i) =~= all);
    }
}

/// The metadata of the encryption data and of the auxiliary information in fragments: the track, the number of the
/// fragment, and how much there is.
pub proof fn law_record_metadata(m: Metadata, sencs: Seq<SencRecordModel>, sais: Seq<SaiRecordModel>)
    ensures
        senc_meta(m, sencs, 0) == m + Seq::new(
            sencs.len(),
            |i: int|
                (
                    "senc_"@ + dec(i as nat),
                    "track="@ + dec(sencs[i].track_idx as nat) + " seq="@ + dec(sencs[i].moof_sequence as nat) + " samples="@
                        + dec(sencs[i].senc.samples.len()) + " flags=0x"@ + hex8(sencs[i].senc.flags),
                ),
        ),
        sai_meta(m, sais, 0) == m + Seq::new(
            sais.len(),
            |i: int|
                (
                    "frag_sai_"@ + dec(i as nat),
                    "track="@ + dec(sais[i].track_idx as nat) + " seq="@ + dec(sais[i].moof_sequence as nat) + " saiz="@
                        + dec(sais[i].saiz.len()) + " saio="@ + dec(sais[i].saio.len()),
                ),
        ),
{
    law_rows_of_metadata(m, sencs, "senc_"@, |r: SencRecordModel| senc_text(r));
    law_rows_of_metadata(m, sais, "frag_sai_"@, |r: SaiRecordModel| sai_text(r));
    assert(senc_meta(m, sencs, 0) =~= m + Seq::new(
        sencs.len(),
        |i: int|
            (
                "senc_"@ + dec(i as nat),
                "track="@ + dec(sencs[i].track_idx as nat) + " seq="@ + dec(sencs[i].moof_sequence as nat) + " samples="@
                    + dec(sencs[i].senc.samples.len()) + " flags=0x"@ + hex8(sencs[i].senc.flags),
            ),
    ));
    assert(sai_meta(m, sais, 0) =~= m + Seq::new(
        sais.len(),
        |i: int|
            (
                "frag_sai_"@ + dec(i as nat),
                "track="@ + dec(sais[i].track_idx as nat) + " seq="@ + dec(sais[i].moof_sequence as nat) + " saiz="@ + dec(
                    sais[i].saiz.len(),
                ) + " saio="@ + dec(sais[i].saio.len()),
            ),
    ));
}

/// The language of a copyright notice is its three letters where they are letters, else the bits of its code in
/// hexadecimal digits; it has an option of its own, also where there is no text.
pub proof fn law_copyright_option(o: Opts, i: int, x: CopyrightModel)
    requires
        forall|k: int| 0 <= k < 3 ==> 0x60 <= #[trigger] x.language@[k] < 0x80,
    ensures
        ({
            let l = x.language@;
            let letters = forall|k: int| 0 <= k < 3 ==> 0x61 <= #[trigger] l[k] <= 0x7A;
            let packed = (l[0] - 0x60) * 1024 + (l[1] - 0x60) * 32 + (l[2] - 0x60);
            let label = "copyright_"@ + dec(i as nat);
            &&& letters ==> language_text(x.language) == seq![l[0] as char, l[1] as char, l[2] as char]
            &&& !letters ==> language_text(x.language) == hex8(packed as u32)
            &&& x.notice.len() > 0 ==> cprt_step(o, i, x) == put(
                put(o, label, x.notice),
                label + "_lang"@,
                language_text(x.language),
            )
            &&& x.notice.len() == 0 ==> cprt_step(o, i, x) == put(o, label + "_lang"@, language_text(x.language))
        }),
{
    let l = x.language@;
    let a = l[0];
    let b = l[1];
    let c = l[2];
    assert(0x60 <= a < 0x80 && 0x60 <= b < 0x80 && 0x60 <= c < 0x80);
    let p = (a - 0x60) as u8;
    let q = (b - 0x60) as u8;
    let r = (c - 0x60) as u8;
    assert((((p as u32) << 10u32) | ((q as u32) << 5u32) | (r as u32)) == p * 1024 + q * 32 + r) by (bit_vector)
        requires p < 32, q < 32, r < 32;
}

/// The format of samples is known of two codecs: by the size of a sample of the one, and always of the other.
pub proof fn law_sample_format(bits: Option<u16>)
    ensures
        stream_format("flac"@, Some(8)) == Some(SampleFormat::U8),
        stream_format("flac"@, Some(16)) == Some(SampleFormat::S16),
        stream_format("flac"@, Some(24)) == Some(SampleFormat::S24),
        stream_format("flac"@, Some(32)) == Some(SampleFormat::S32),
        bits is None ==> stream_format("flac"@, bits) is None,
        bits is Some && bits->Some_0 != 8 && bits->Some_0 != 16 && bits->Some_0 != 24 && bits->Some_0 != 32 ==> stream_format(
            "flac"@,
            bits,
        ) is None,
        stream_format("pcm_s16le"@, bits) == Some(SampleFormat::S16),
        forall|id: Seq<char>| id != "flac"@ && id != "pcm_s16le"@ ==> #[trigger] stream_format(id, bits) is None,
{
    reveal_strlit("flac");
    reveal_strlit("pcm_s16le");
    assert("flac"@.len() != "pcm_s16le"@.len());
}

/// Text in 16-bit units starts with a mark; other text ends with its first zero. White space around it is left out.
pub proof fn law_decoded_text(b: Seq<u8>)
    ensures
        ({
            let marked = b.len() >= 2 && b[0] == 0xFE && b[1] == 0xFF;
            &&& marked ==> decoded_text(b) == trimmed(trim_nuls(utf16_text(utf16_units(b.skip(2)))))
            &&& !marked ==> decoded_text(b) == trimmed(utf8_lossy(b.take(first_nul(b))))
        }),
{
    crate::textlaws::law_first_nul(b);
    if b.len() >= 2 {
        assert(b.subrange(2, b.len() as int) =~= b.skip(2));
    }
    assert(b.subrange(0, first_nul(b)) =~= b.take(first_nul(b)));
}

/// A code is written as its letters, or where it has others or is no text, in hexadecimal digits.
pub proof fn law_code_text(a: [u8; 4])
    ensures
        ({
            let letters = valid_utf8(a@) && forall|i: int| 0 <= i < decode_utf8(a@).len() ==> {
                let c = #[trigger] decode_utf8(a@)[i] as int;
                0x20 <= c < 0x7F || c > 0x9F
            };
            &&& letters ==> token(a@) == decode_utf8(a@)
            &&& !letters ==> token(a@) == hex_from(Seq::empty(), a@, 0)
            &&& valid_utf8(a@) ==> code_or_marks(a@) == decode_utf8(a@)
            &&& !valid_utf8(a@) ==> code_or_marks(a@) == "????"@
        }),
{
    let s = a@;
    reveal_with_fuel(hex_from, 6);
    assert(hex_from(Seq::empty(), s, 0) =~= hex2(s[0]) + hex2(s[1]) + hex2(s[2]) + hex2(s[3]));
    assert forall|i: int| 0 <= i < decode_utf8(s).len() implies (is_control(#[trigger] decode_utf8(s)[i]) <==> !({
        let c = decode_utf8(s)[i] as int;
        0x20 <= c < 0x7F || c > 0x9F
    })) by {
        lemma_control(decode_utf8(s)[i]);
    }
}

proof fn lemma_control(c: char)
    ensures
        is_control(c) <==> !(0x20 <= c as int && (c as int) < 0x7F || c as int > 0x9F),
{
}

/// The text of the parts of a sample: of each its size, its priority, whether it can be left out, and the word for the
/// codec.
pub proof fn law_subsamples_text(acc: Seq<char>, rows: Seq<SubSampleEntry>)
    ensures
        subsamples_text(acc, rows, 0) == acc + joined(
            rows,
            rows.len() as int,
            ";"@,
            |s: SubSampleEntry|
                dec(s.subsample_size as nat) + ","@ + dec(s.subsample_priority as nat) + ","@ + dec(s.discardable as nat)
                    + ","@ + hex8(s.codec_specific_parameters),
        ),
{
    let f = |s: SubSampleEntry|
        dec(s.subsample_size as nat) + ","@ + dec(s.subsample_priority as nat) + ","@ + dec(s.discardable as nat) + ","@
            + hex8(s.codec_specific_parameters);
    assert(acc + joined(rows, 0, ";"@, f) =~= acc);
    lemma_subsamples_text(acc, rows, 0, f);
}

proof fn lemma_subsamples_text(acc: Seq<char>, rows: Seq<SubSampleEntry>, i: int, f: spec_fn(SubSampleEntry) -> Seq<char>)
    requires
        0 <= i <= rows.len(),
        forall|s: SubSampleEntry| #[trigger] f(s) == dec(s.subsample_size as nat) + ","@ + dec(s.subsample_priority as nat) + ","@
            + dec(s.discardable as nat) + ","@ + hex8(s.codec_specific_parameters),
    ensures
        subsamples_text(acc + joined(rows, i, ";"@, f), rows, i) == acc + joined(rows, rows.len() as int, ";"@, f),
    decreases rows.len() - i,
{
    if i < rows.len() {
        let a = acc + joined(rows, i, ";"@, f);
        let s = rows[i];
        let h = if i == 0 { a } else { a + ";"@ };
        let b = h + dec(s.subsample_size as nat) + ","@ + dec(s.subsample_priority as nat) + ","@ + dec(
            s.discardable as nat,
        ) + ","@ + hex8(s.codec_specific_parameters);
        assert(b =~= h + f(s));
        assert(h + f(s) =~= acc + joined(rows, i + 1, ";"@, f));
        lemma_subsamples_text(acc, rows, i + 1, f);
    }
}

/// The text of a sub track: its number and groups, and its attributes where it has any.
pub proof fn law_sub_track_text(s: SubTrackModel)
    requires
        s.sample_groups.len() == 0,
    ensures
        ({
            let a = "id="@ + dec(s.sub_track_id as nat) + " switch="@ + sdec(s.switch_group as int) + " alt="@ + sdec(
                s.alternate_group as int,
            );
            &&& s.attribute_list.len() == 0 ==> sub_track_text(s) == a
            &&& s.attribute_list.len() > 0 ==> sub_track_text(s) == a + " attrs="@ + joined(
                s.attribute_list,
                s.attribute_list.len() as int,
                " "@,
                |x: [u8; 4]| token(x@),
            )
        }),
{
    let a = "id="@ + dec(s.sub_track_id as nat) + " switch="@ + sdec(s.switch_group as int) + " alt="@ + sdec(
        s.alternate_group as int,
    );
    law_list(a + " attrs="@, s.attribute_list, " "@, |x: [u8; 4]| token(x@));
}

}
