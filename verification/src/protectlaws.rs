//! How the boxes on protection, sample groups and auxiliary information are laid out: what is written field by
//! field is read back.
use vstd::prelude::*;
use crate::auxinfo::{saio_of, saiz_of, subs_entries, subs_entry_at, subs_of, subsample_at, subsamples_at};
use crate::boxes::items;
use crate::boxlaws::{lemma_rows, lemma_two, rows, two};
use crate::bytes::{be16, be24, be32, be64, code_at, enc24, enc32, enc64};
use crate::cenc::{
    key_at, pssh_of, senc_of, senc_sample_at, senc_samples, tenc_of, PsshModel, SencModel, SencSampleModel, TencModel,
};
use crate::error::Error;
use crate::groups::{sbgp_of, sgpd_entries, sgpd_entry_at, sgpd_of, slots};
use crate::indexlaws::{enc16, lemma_at16, lemma_items};
use crate::layoutlaws::{at, lemma_at32, lemma_at64, lemma_peel, lemma_version, lemma_whole};
use crate::track::{SaioModel, SaizModel, SbgpModel, SgpdModel, SubSampleEntry, SubsEntryModel, SubsModel};

verus! {

pub proof fn lemma_at8(b: Seq<u8>, q: int, x: u8)
    requires
        at(b, q, seq![x]),
    ensures
        b[q] == x,
{
    assert(b.subrange(q, q + 1)[0] == b[q]);
}

/// A key that stands somewhere is read there.
pub proof fn lemma_key(b: Seq<u8>, q: int, k: [u8; 16])
    requires
        at(b, q, k@),
    ensures
        key_at(b, q) == k,
{
    let w = b.subrange(q, q + 16);
    assert forall|i: int| 0 <= i < 16 implies #[trigger] key_at(b, q)@[i] == k@[i] by {
        assert(w[i] == b[q + i]);
    }
    assert(key_at(b, q)@ =~= k@);
    assert(key_at(b, q) =~= k);
}

/// The code that stands somewhere is read there.
pub proof fn lemma_code_at(b: Seq<u8>, q: int, k: [u8; 4])
    requires
        at(b, q, k@),
    ensures
        code_at(b, q) == k,
{
    let w = b.subrange(q, q + 4);
    assert forall|i: int| 0 <= i < 4 implies #[trigger] code_at(b, q)@[i] == k@[i] by {
        assert(w[i] == b[q + i]);
    }
    assert(code_at(b, q)@ =~= k@);
    assert(code_at(b, q) =~= k);
}

/// The bytes of a track encryption box: version and flags, a reserved byte, the pattern, whether samples are
/// protected, the size of their vectors, the key, and where all samples share it, the vector behind its length.
pub open spec fn tenc_layout(flags: Seq<u8>, gap: u8, x: TencModel) -> Seq<u8> {
    seq![x.version] + flags + seq![gap] + seq![(x.default_crypt_byte_block * 16 + x.default_skip_byte_block) as u8] + seq![
        x.default_is_protected,
    ] + seq![x.default_per_sample_iv_size] + x.default_kid@ + (match x.default_constant_iv {
        Some(iv) => seq![iv.len() as u8] + iv,
        None => Seq::empty(),
    })
}

/// A track encryption box is read; the first version has no pattern, and there is a shared vector exactly where
/// samples are protected and have none of their own.
pub proof fn law_tenc_layout(b: Seq<u8>, flags: Seq<u8>, gap: u8, x: TencModel)
    requires
        flags.len() == 3,
        x.default_crypt_byte_block < 16,
        x.default_skip_byte_block < 16,
        x.version == 0 ==> x.default_crypt_byte_block == 0 && x.default_skip_byte_block == 0,
        x.default_constant_iv is Some == (x.default_is_protected == 1 && x.default_per_sample_iv_size == 0),
        x.default_constant_iv is Some ==> x.default_constant_iv->Some_0.len() < 256,
        at(b, 0, tenc_layout(flags, gap, x)),
    ensures
        tenc_of(b) == Ok::<TencModel, Error>(x),
{
    let k = (x.default_crypt_byte_block * 16 + x.default_skip_byte_block) as u8;
    let tail = match x.default_constant_iv {
        Some(iv) => seq![iv.len() as u8] + iv,
        None => Seq::empty(),
    };
    let h1 = seq![x.version] + flags;
    let h2 = h1 + seq![gap];
    let h3 = h2 + seq![k];
    let h4 = h3 + seq![x.default_is_protected];
    let h5 = h4 + seq![x.default_per_sample_iv_size];
    let h6 = h5 + x.default_kid@;
    lemma_peel(b, 0, h6, tail);
    lemma_peel(b, 0, h5, x.default_kid@);
    lemma_peel(b, 0, h4, seq![x.default_per_sample_iv_size]);
    lemma_peel(b, 0, h3, seq![x.default_is_protected]);
    lemma_peel(b, 0, h2, seq![k]);
    lemma_peel(b, 0, h1, seq![gap]);
    lemma_peel(b, 0, seq![x.version], flags);
    lemma_at8(b, 0, x.version);
    lemma_at8(b, 5, k);
    lemma_at8(b, 6, x.default_is_protected);
    lemma_at8(b, 7, x.default_per_sample_iv_size);
    lemma_key(b, 8, x.default_kid);
    if let Some(iv) = x.default_constant_iv {
        lemma_peel(b, 24, seq![iv.len() as u8], iv);
        lemma_at8(b, 24, iv.len() as u8);
        assert(b.subrange(25, 25 + iv.len() as int) == iv);
    }
}

/// The bytes of the protection system box: version and flags, the system, where the version is not 0 the keys behind
/// their number, and the data behind its length.
pub open spec fn pssh_layout(flags: Seq<u8>, x: PsshModel) -> Seq<u8> {
    seq![x.version] + flags + x.system_id@ + (if x.version == 0 {
        Seq::empty()
    } else {
        enc32(x.kids.len() as u32) + rows(x.kids.len() as int, |i: int| x.kids[i]@)
    }) + enc32(x.data.len() as u32) + x.data
}

/// A protection system box is read.
pub proof fn law_pssh_layout(b: Seq<u8>, flags: Seq<u8>, x: PsshModel)
    requires
        flags.len() == 3,
        x.version == 0 ==> x.kids.len() == 0,
        x.kids.len() <= u32::MAX,
        x.data.len() <= u32::MAX,
        at(b, 0, pssh_layout(flags, x)),
    ensures
        pssh_of(b) == Ok::<PsshModel, Error>(x),
{
    let n = x.kids.len() as int;
    let row = |i: int| x.kids[i]@;
    let keys = if x.version == 0 { Seq::empty() } else { enc32(n as u32) + rows(n, row) };
    let size = enc32(x.data.len() as u32);
    let h1 = seq![x.version] + flags;
    let h2 = h1 + x.system_id@;
    let h3 = h2 + keys;
    lemma_peel(b, 0, h3 + size, x.data);
    lemma_peel(b, 0, h3, size);
    lemma_peel(b, 0, h2, keys);
    lemma_peel(b, 0, h1, x.system_id@);
    lemma_peel(b, 0, seq![x.version], flags);
    lemma_at8(b, 0, x.version);
    lemma_key(b, 4, x.system_id);
    if x.version != 0 {
        lemma_peel(b, 20, enc32(n as u32), rows(n, row));
        lemma_at32(b, 20, n as u32);
        assert forall|i: int| 0 <= i < n implies (#[trigger] row(i)).len() == 16 by {}
        lemma_rows(b, 24, n, row, 16);
        assert forall|i: int| 0 <= i < n implies key_at(b, 24 + 16 * i) == #[trigger] x.kids[i] by {
            assert(at(b, 24 + 16 * i, row(i)));
            lemma_key(b, 24 + 16 * i, x.kids[i]);
        }
    }
    let p = h3.len() as int;
    lemma_at32(b, p, x.data.len() as u32);
    assert(b.subrange(p + 4, p + 4 + x.data.len()) == x.data);
    assert(pssh_of(b)->Ok_0.kids =~= x.kids);
}

/// The bytes of the encryption data of a sample: its vector, and where the flags announce them, the parts of the
/// sample behind their number, each a number of clear and a number of protected bytes.
pub open spec fn senc_row(split: bool, x: SencSampleModel) -> Seq<u8> {
    x.iv + (if split {
        enc16(x.subsamples.len() as int) + rows(
            x.subsamples.len() as int,
            |i: int| enc16(x.subsamples[i].0 as int) + enc32(x.subsamples[i].1),
        )
    } else {
        Seq::empty()
    })
}

/// Whether the encryption data of a sample can be written.
pub open spec fn senc_fits(split: bool, x: SencSampleModel, iv_size: u8) -> bool {
    x.iv.len() == iv_size && x.subsamples.len() < 0x1_0000 && (!split ==> x.subsamples.len() == 0)
}

proof fn lemma_senc_row(b: Seq<u8>, q: int, split: bool, x: SencSampleModel, iv_size: u8)
    requires
        split == crate::cenc::senc_has_subsamples(b),
        senc_fits(split, x, iv_size),
        at(b, q, senc_row(split, x)),
    ensures
        senc_sample_at(b, q, iv_size) == Ok::<(SencSampleModel, int), Error>((x, q + senc_row(split, x).len())),
{
    let n = x.subsamples.len() as int;
    let row = |i: int| enc16(x.subsamples[i].0 as int) + enc32(x.subsamples[i].1);
    let tail = if split { enc16(n) + rows(n, row) } else { Seq::empty() };
    assert(senc_row(split, x) == x.iv + tail);
    lemma_peel(b, q, x.iv, tail);
    let p = q + iv_size;
    assert(b.subrange(q, p) == x.iv);
    if split {
        lemma_peel(b, p, enc16(n), rows(n, row));
        lemma_at16(b, p, n);
        assert forall|i: int| 0 <= i < n implies (#[trigger] row(i)).len() == 6 by {}
        lemma_rows(b, p + 2, n, row, 6);
        assert forall|i: int| 0 <= i < n implies be16(b, p + 2 + 6 * i) == (#[trigger] x.subsamples[i]).0 && be32(
            b,
            p + 4 + 6 * i,
        ) == x.subsamples[i].1 by {
            let s = p + 2 + 6 * i;
            assert(at(b, s, row(i)));
            lemma_peel(b, s, enc16(x.subsamples[i].0 as int), enc32(x.subsamples[i].1));
            lemma_at16(b, s, x.subsamples[i].0 as int);
            lemma_at32(b, s + 2, x.subsamples[i].1);
        }
        assert(Seq::new(n as nat, |i: int| (be16(b, p + 2 + 6 * i), be32(b, p + 4 + 6 * i))) =~= x.subsamples);
    } else {
        assert(x.subsamples =~= Seq::empty());
    }
}

/// A sample encryption box gives the encryption data of its samples; the second bit of its flags announces that
/// samples are split into parts.
#[verifier::rlimit(40)]
pub proof fn law_senc_layout(b: Seq<u8>, version: u8, x: SencModel, iv_size: u8)
    requires
        x.flags < 0x100_0000,
        x.samples.len() <= u32::MAX,
        forall|i: int| 0 <= i < x.samples.len() ==> senc_fits(x.flags as int / 2 % 2 == 1, #[trigger] x.samples[i], iv_size),
        at(
            b,
            0,
            seq![version] + enc24(x.flags) + enc32(x.samples.len() as u32) + rows(
                x.samples.len() as int,
                |i: int| senc_row(x.flags as int / 2 % 2 == 1, x.samples[i]),
            ),
        ),
    ensures
        senc_of(b, iv_size) == Ok::<SencModel, Error>(x),
{
    let n = x.samples.len() as int;
    let split = x.flags as int / 2 % 2 == 1;
    let row = |i: int| senc_row(split, x.samples[i]);
    let item = |b: Seq<u8>, off: int| senc_sample_at(b, off, iv_size);
    let h = seq![version] + enc24(x.flags);
    lemma_peel(b, 0, h + enc32(n as u32), rows(n, row));
    lemma_peel(b, 0, h, enc32(n as u32));
    lemma_version(b, version, x.flags);
    lemma_at32(b, 4, n as u32);
    let f = b[3];
    reveal(be24);
    assert((f & 2 != 0) == (f / 2 % 2 == 1)) by (bit_vector);
    assert(x.flags as int / 2 % 2 == f as int / 2 % 2);
    assert forall|p: int, k: int| 0 <= k < n && at(b, p, row(k)) implies #[trigger] item(b, p) == Ok::<
        (SencSampleModel, int),
        Error,
    >((x.samples[k], p + (#[trigger] row(k)).len())) by {
        assert(senc_fits(split, x.samples[k], iv_size));
        lemma_senc_row(b, p, split, x.samples[k], iv_size);
    }
    lemma_items(b, 8, x.samples, row, item, 0);
    assert(x.samples.take(0) =~= Seq::empty());
    assert(rows(0, row).len() == 0);
    assert(senc_samples(b, 8, n as nat, Seq::empty(), iv_size) == items(b, 8, n as nat, Seq::empty(), item));
}

/// The bytes of a part of a sample: its size, in 16 or in 32 bits by the version, its priority, whether it can be
/// left out, and a word for the codec.
pub open spec fn subsample_layout(version: u8, x: SubSampleEntry) -> Seq<u8> {
    (if version == 1 { enc32(x.subsample_size) } else { enc16(x.subsample_size as int) }) + seq![x.subsample_priority]
        + seq![x.discardable] + enc32(x.codec_specific_parameters)
}

/// The bytes of a row of the subsample table.
pub open spec fn subs_layout(version: u8, x: SubsEntryModel) -> Seq<u8> {
    enc32(x.sample_delta) + enc16(x.subsamples.len() as int) + rows(
        x.subsamples.len() as int,
        |i: int| subsample_layout(version, x.subsamples[i]),
    )
}

/// Whether a row of the subsample table can be written.
pub open spec fn subs_fits(version: u8, x: SubsEntryModel) -> bool {
    &&& x.subsamples.len() < 0x1_0000
    &&& version != 1 ==> forall|i: int| 0 <= i < x.subsamples.len() ==> (#[trigger] x.subsamples[i]).subsample_size < 0x1_0000
}

proof fn lemma_subsample(b: Seq<u8>, q: int, x: SubSampleEntry)
    requires
        b[0] != 1 ==> x.subsample_size < 0x1_0000,
        at(b, q, subsample_layout(b[0], x)),
    ensures
        subsample_at(b, q) == x,
{
    let s = if b[0] == 1 { enc32(x.subsample_size) } else { enc16(x.subsample_size as int) };
    let h1 = s + seq![x.subsample_priority];
    let h2 = h1 + seq![x.discardable];
    lemma_peel(b, q, h2, enc32(x.codec_specific_parameters));
    lemma_peel(b, q, h1, seq![x.discardable]);
    lemma_peel(b, q, s, seq![x.subsample_priority]);
    let p = q + s.len();
    lemma_at8(b, p, x.subsample_priority);
    lemma_at8(b, p + 1, x.discardable);
    lemma_at32(b, p + 2, x.codec_specific_parameters);
    if b[0] == 1 {
        lemma_at32(b, q, x.subsample_size);
    } else {
        lemma_at16(b, q, x.subsample_size as int);
    }
}

proof fn lemma_subs(b: Seq<u8>, q: int, x: SubsEntryModel)
    requires
        subs_fits(b[0], x),
        at(b, q, subs_layout(b[0], x)),
    ensures
        subs_entry_at(b, q) == Ok::<(SubsEntryModel, int), Error>((x, q + subs_layout(b[0], x).len())),
{
    let n = x.subsamples.len() as int;
    let row = |i: int| subsample_layout(b[0], x.subsamples[i]);
    let w = if b[0] == 1 { 10int } else { 8int };
    let h = enc32(x.sample_delta);
    lemma_peel(b, q, h + enc16(n), rows(n, row));
    lemma_peel(b, q, h, enc16(n));
    lemma_at32(b, q, x.sample_delta);
    lemma_at16(b, q + 4, n);
    assert forall|i: int| 0 <= i < n implies (#[trigger] row(i)).len() == w by {}
    lemma_rows(b, q + 6, n, row, w);
    assert(n * w == w * n) by (nonlinear_arith);
    assert forall|i: int| 0 <= i < n implies subsample_at(b, q + 6 + w * i) == #[trigger] x.subsamples[i] by {
        assert(at(b, q + 6 + w * i, row(i)));
        lemma_subsample(b, q + 6 + w * i, x.subsamples[i]);
    }
    assert(subsamples_at(b, q + 6, n as nat) =~= x.subsamples);
}

/// A subsample information box is read.
pub proof fn law_subs_layout(b: Seq<u8>, x: SubsModel)
    requires
        x.flags < 0x100_0000,
        x.entries.len() <= u32::MAX,
        forall|i: int| 0 <= i < x.entries.len() ==> subs_fits(x.version, #[trigger] x.entries[i]),
        at(
            b,
            0,
            seq![x.version] + enc24(x.flags) + enc32(x.entries.len() as u32) + rows(
                x.entries.len() as int,
                |i: int| subs_layout(x.version, x.entries[i]),
            ),
        ),
    ensures
        subs_of(b) == Ok::<SubsModel, Error>(x),
{
    let n = x.entries.len() as int;
    let row = |i: int| subs_layout(x.version, x.entries[i]);
    let item = |b: Seq<u8>, off: int| subs_entry_at(b, off);
    let h = seq![x.version] + enc24(x.flags);
    lemma_peel(b, 0, h + enc32(n as u32), rows(n, row));
    lemma_peel(b, 0, h, enc32(n as u32));
    lemma_version(b, x.version, x.flags);
    lemma_at32(b, 4, n as u32);
    assert forall|p: int, k: int| 0 <= k < n && at(b, p, row(k)) implies #[trigger] item(b, p) == Ok::<
        (SubsEntryModel, int),
        Error,
    >((x.entries[k], p + (#[trigger] row(k)).len())) by {
        assert(subs_fits(x.version, x.entries[k]));
        lemma_subs(b, p, x.entries[k]);
    }
    lemma_items(b, 8, x.entries, row, item, 0);
    assert(x.entries.take(0) =~= Seq::empty());
    assert(rows(0, row).len() == 0);
    assert(subs_entries(b, 8, n as nat, Seq::empty()) == items(b, 8, n as nat, Seq::empty(), item));
}

/// The start of a box on auxiliary information: version and flags, of which the last bit announces a kind and its
/// parameter.
pub open spec fn aux_layout(version: u8, flags: u32, kind: Option<[u8; 4]>, parameter: Option<u32>) -> Seq<u8> {
    seq![version] + enc24(flags) + (if kind is Some {
        kind->Some_0@ + enc32(parameter->Some_0)
    } else {
        Seq::empty()
    })
}

proof fn lemma_aux(b: Seq<u8>, version: u8, flags: u32, kind: Option<[u8; 4]>, parameter: Option<u32>)
    requires
        flags < 0x100_0000,
        kind is Some == (flags as int % 2 == 1),
        kind is Some == (parameter is Some),
        at(b, 0, aux_layout(version, flags, kind, parameter)),
    ensures
        b[0] == version,
        crate::auxinfo::aux_typed(b) == (kind is Some),
        kind is Some ==> code_at(b, 4) == kind->Some_0 && be32(b, 8) == parameter->Some_0,
        aux_layout(version, flags, kind, parameter).len() == crate::auxinfo::aux_fields(b),
{
    let h = seq![version] + enc24(flags);
    let tail = if kind is Some { kind->Some_0@ + enc32(parameter->Some_0) } else { Seq::empty() };
    lemma_peel(b, 0, h, tail);
    lemma_version(b, version, flags);
    reveal(be24);
    if kind is Some {
        lemma_peel(b, 4, kind->Some_0@, enc32(parameter->Some_0));
        lemma_code_at(b, 4, kind->Some_0);
        lemma_at32(b, 8, parameter->Some_0);
    }
}

/// The sizes of auxiliary information are one for all samples, or where that is 0, one byte for each.
pub proof fn law_saiz_layout(b: Seq<u8>, version: u8, flags: u32, x: SaizModel)
    requires
        flags < 0x100_0000,
        x.aux_info_type is Some == (flags as int % 2 == 1),
        x.aux_info_type is Some == (x.aux_info_type_parameter is Some),
        x.default_sample_info_size == 0 ==> x.per_sample.len() == x.sample_count,
        x.default_sample_info_size != 0 ==> x.per_sample.len() == 0,
        at(
            b,
            0,
            aux_layout(version, flags, x.aux_info_type, x.aux_info_type_parameter) + seq![x.default_sample_info_size]
                + enc32(x.sample_count) + x.per_sample,
        ),
    ensures
        saiz_of(b) == Ok::<SaizModel, Error>(x),
{
    let h = aux_layout(version, flags, x.aux_info_type, x.aux_info_type_parameter);
    let h1 = h + seq![x.default_sample_info_size];
    lemma_peel(b, 0, h1 + enc32(x.sample_count), x.per_sample);
    lemma_peel(b, 0, h1, enc32(x.sample_count));
    lemma_peel(b, 0, h, seq![x.default_sample_info_size]);
    lemma_aux(b, version, flags, x.aux_info_type, x.aux_info_type_parameter);
    let p = h.len() as int;
    lemma_at8(b, p, x.default_sample_info_size);
    lemma_at32(b, p + 1, x.sample_count);
    assert(b.subrange(p + 5, p + 5 + x.per_sample.len()) == x.per_sample);
    assert(saiz_of(b)->Ok_0.per_sample =~= x.per_sample);
}

/// The places of auxiliary information are in 32 or in 64 bits by the version.
pub proof fn law_saio_layout(b: Seq<u8>, flags: u32, x: SaioModel)
    requires
        flags < 0x100_0000,
        x.aux_info_type is Some == (flags as int % 2 == 1),
        x.aux_info_type is Some == (x.aux_info_type_parameter is Some),
        x.offsets.len() <= u32::MAX,
        x.version == 0 ==> forall|i: int| 0 <= i < x.offsets.len() ==> #[trigger] x.offsets[i] <= u32::MAX,
        at(
            b,
            0,
            aux_layout(x.version, flags, x.aux_info_type, x.aux_info_type_parameter) + enc32(x.offsets.len() as u32)
                + rows(
                x.offsets.len() as int,
                |i: int| if x.version == 0 { enc32(x.offsets[i] as u32) } else { enc64(x.offsets[i]) },
            ),
        ),
    ensures
        saio_of(b) == Ok::<SaioModel, Error>(x),
{
    let n = x.offsets.len() as int;
    let row = |i: int| if x.version == 0 { enc32(x.offsets[i] as u32) } else { enc64(x.offsets[i]) };
    let h = aux_layout(x.version, flags, x.aux_info_type, x.aux_info_type_parameter);
    lemma_peel(b, 0, h + enc32(n as u32), rows(n, row));
    lemma_peel(b, 0, h, enc32(n as u32));
    lemma_aux(b, x.version, flags, x.aux_info_type, x.aux_info_type_parameter);
    let p = h.len() as int;
    lemma_at32(b, p, n as u32);
    let w = if x.version == 0 { 4int } else { 8int };
    assert forall|i: int| 0 <= i < n implies (#[trigger] row(i)).len() == w by {}
    lemma_rows(b, p + 4, n, row, w);
    assert forall|i: int| 0 <= i < n implies (if x.version == 0 {
        be32(b, p + 4 + w * i) as u64
    } else {
        be64(b, p + 4 + w * i)
    }) == #[trigger] x.offsets[i] by {
        assert(at(b, p + 4 + w * i, row(i)));
        if x.version == 0 {
            lemma_at32(b, p + 4 + w * i, x.offsets[i] as u32);
        } else {
            lemma_at64(b, p + 4 + w * i, x.offsets[i]);
        }
    }
    assert(saio_of(b)->Ok_0.offsets =~= x.offsets);
}

/// A sample to group box gives runs of samples, each with the group that they are in.
pub proof fn law_sbgp_layout(b: Seq<u8>, version: u8, flags: Seq<u8>, x: SbgpModel)
    requires
        flags.len() == 3,
        x.grouping_type_parameter is Some == (version == 1),
        x.entries.len() <= u32::MAX,
        at(
            b,
            0,
            seq![version] + flags + x.grouping_type@ + (match x.grouping_type_parameter {
                Some(p) => enc32(p),
                None => Seq::empty(),
            }) + enc32(x.entries.len() as u32) + rows(
                x.entries.len() as int,
                |i: int| two(x.entries[i].0, x.entries[i].1),
            ),
        ),
    ensures
        sbgp_of(b) == Ok::<SbgpModel, Error>(x),
{
    let n = x.entries.len() as int;
    let row = |i: int| two(x.entries[i].0, x.entries[i].1);
    let o = match x.grouping_type_parameter {
        Some(p) => enc32(p),
        None => Seq::empty(),
    };
    let h1 = seq![version] + flags;
    let h2 = h1 + x.grouping_type@;
    let h3 = h2 + o;
    lemma_peel(b, 0, h3 + enc32(n as u32), rows(n, row));
    lemma_peel(b, 0, h3, enc32(n as u32));
    lemma_peel(b, 0, h2, o);
    lemma_peel(b, 0, h1, x.grouping_type@);
    lemma_peel(b, 0, seq![version], flags);
    lemma_at8(b, 0, version);
    lemma_code_at(b, 4, x.grouping_type);
    if let Some(p) = x.grouping_type_parameter {
        lemma_at32(b, 8, p);
    }
    let p = h3.len() as int;
    lemma_at32(b, p, n as u32);
    lemma_rows(b, p + 4, n, row, 8);
    assert forall|i: int| 0 <= i < n implies be32(b, p + 4 + 8 * i) == (#[trigger] x.entries[i]).0 && be32(
        b,
        p + 4 + 8 * i + 4,
    ) == x.entries[i].1 by {
        assert(at(b, p + 4 + 8 * i, row(i)));
        lemma_two(b, p + 4 + 8 * i, x.entries[i].0, x.entries[i].1);
    }
    assert(sbgp_of(b)->Ok_0.entries =~= x.entries);
}

/// The start of a sample group description box, whose third word is a length in version 1, the index of a default
/// description in later ones, and missing in the first.
pub open spec fn sgpd_head(version: u8, flags: Seq<u8>, kind: [u8; 4], word: u32, n: int) -> Seq<u8> {
    seq![version] + flags + kind@ + (if version == 0 { Seq::empty() } else { enc32(word) }) + enc32(n as u32)
}

proof fn lemma_sgpd_head(b: Seq<u8>, version: u8, flags: Seq<u8>, kind: [u8; 4], word: u32, n: int)
    requires
        flags.len() == 3,
        0 <= n <= u32::MAX,
        at(b, 0, sgpd_head(version, flags, kind, word, n)),
    ensures
        b[0] == version,
        code_at(b, 4) == kind,
        version != 0 ==> be32(b, 8) == word,
        be32(b, crate::groups::sgpd_count_pos(b)) == n,
        sgpd_head(version, flags, kind, word, n).len() == crate::groups::sgpd_count_pos(b) + 4,
{
    let o = if version == 0 { Seq::empty() } else { enc32(word) };
    let h1 = seq![version] + flags;
    let h2 = h1 + kind@;
    lemma_peel(b, 0, h2 + o, enc32(n as u32));
    lemma_peel(b, 0, h2, o);
    lemma_peel(b, 0, h1, kind@);
    lemma_peel(b, 0, seq![version], flags);
    lemma_at8(b, 0, version);
    lemma_code_at(b, 4, kind);
    if version != 0 {
        lemma_at32(b, 8, word);
    }
    lemma_at32(b, (h2.len() + o.len()) as int, n as u32);
}

/// The descriptions of sample groups are read: in version 1 each behind its own length, or all of one length.
pub proof fn law_sgpd_layout(b: Seq<u8>, flags: Seq<u8>, x: SgpdModel, word: u32)
    requires
        flags.len() == 3,
        x.default_sample_description_index is None,
        x.entries.len() <= u32::MAX,
        forall|i: int| 0 <= i < x.entries.len() ==> (#[trigger] x.entries[i]).len() <= u32::MAX && (word != 0 ==> x.entries[i].len()
            == word),
        at(
            b,
            0,
            sgpd_head(1, flags, x.grouping_type, word, x.entries.len() as int) + rows(
                x.entries.len() as int,
                |i: int| if word == 0 { enc32(x.entries[i].len() as u32) + x.entries[i] } else { x.entries[i] },
            ),
        ),
    ensures
        sgpd_of(b) == Ok::<SgpdModel, Error>(x),
{
    let n = x.entries.len() as int;
    let row = |i: int| if word == 0 { enc32(x.entries[i].len() as u32) + x.entries[i] } else { x.entries[i] };
    let item = |b: Seq<u8>, off: int| sgpd_entry_at(b, off);
    lemma_peel(b, 0, sgpd_head(1, flags, x.grouping_type, word, n), rows(n, row));
    lemma_sgpd_head(b, 1, flags, x.grouping_type, word, n);
    if word == 0 {
        assert forall|p: int, k: int| 0 <= k < n && at(b, p, row(k)) implies #[trigger] item(b, p) == Ok::<
            (Seq<u8>, int),
            Error,
        >((x.entries[k], p + (#[trigger] row(k)).len())) by {
            let e = x.entries[k];
            lemma_peel(b, p, enc32(e.len() as u32), e);
            lemma_at32(b, p, e.len() as u32);
            assert(b.subrange(p + 4, p + 4 + e.len()) == e);
        }
        lemma_items(b, 16, x.entries, row, item, 0);
        assert(x.entries.take(0) =~= Seq::empty());
        assert(rows(0, row).len() == 0);
        assert(sgpd_entries(b, 16, n as nat, Seq::empty()) == items(b, 16, n as nat, Seq::empty(), item));
    } else {
        let w = word as int;
        assert forall|i: int| 0 <= i < n implies (#[trigger] row(i)).len() == w by {
            assert(x.entries[i].len() == word);
        }
        lemma_rows(b, 16, n, row, w);
        assert forall|i: int| 0 <= i < n implies b.subrange(16 + w * i, 16 + w * i + w) == #[trigger] x.entries[i] by {
            assert(at(b, 16 + w * i, row(i)));
            assert(x.entries[i].len() == word);
        }
        assert(slots(b, 16, n as nat, w) =~= x.entries);
    }
}

/// The descriptions of sample groups of another version than 1 are one description, to the end of the box; a later
/// version gives the index of a default.
pub proof fn law_sgpd_opaque(version: u8, flags: Seq<u8>, kind: [u8; 4], word: u32, n: u32, d: Seq<u8>)
    requires
        flags.len() == 3,
        version != 1,
    ensures
        sgpd_of(sgpd_head(version, flags, kind, word, n as int) + d) == Ok::<SgpdModel, Error>(
            SgpdModel {
                grouping_type: kind,
                default_sample_description_index: if version == 0 { None } else { Some(word) },
                entries: if n > 0 && d.len() > 0 { seq![d] } else { Seq::empty() },
            },
        ),
{
    let h = sgpd_head(version, flags, kind, word, n as int);
    let b = h + d;
    lemma_whole(b);
    lemma_peel(b, 0, h, d);
    lemma_sgpd_head(b, version, flags, kind, word, n as int);
    assert(b.subrange(h.len() as int, b.len() as int) =~= d);
}

}
