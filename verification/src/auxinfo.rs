//! Subsamples and auxiliary information of samples.
use vstd::prelude::*;
use crate::boxes::{items, lemma_views_push, views};
use crate::bytes::{be16, be24, be32, code_at, copy_bytes, read_code, read_u16, read_u24, read_u32};
use crate::error::{seen, Error, Result};
use crate::tables::{fits, longs, read_longs, read_wide_words, rows_fit, wide_words};
use crate::track::{
    SaioBox, SaioModel, SaizBox, SaizModel, SubSampleEntry, SubsBox, SubsEntry, SubsEntryModel,
    SubsModel,
};

verus! {

/// The size of a subsample row of a `subs` payload; version 1 has wider sizes.
pub open spec fn subs_row(version: u8) -> int {
    if version == 1 { 10 } else { 8 }
}

/// The subsample row at byte `p` of a `subs` payload.
pub open spec fn subsample_at(b: Seq<u8>, p: int) -> SubSampleEntry {
    let q = p + subs_row(b[0]) - 6;
    SubSampleEntry {
        subsample_size: if b[0] == 1 { be32(b, p) } else { be16(b, p) as u32 },
        subsample_priority: b[q],
        discardable: b[q + 1],
        codec_specific_parameters: be32(b, q + 2),
    }
}

/// The subsample rows of one sample.
pub open spec fn subsamples_at(b: Seq<u8>, p: int, n: nat) -> Seq<SubSampleEntry> {
    Seq::new(n, |i: int| subsample_at(b, p + subs_row(b[0]) * i))
}

/// The entry at byte `off` of a `subs` payload, and where the next one starts.
pub open spec fn subs_entry_at(b: Seq<u8>, off: int) -> Result<(SubsEntryModel, int)> {
    let n = be16(b, off + 4);
    if b.len() < off + 6 {
        Err(Error::invalid("MP4: subs entry header truncated"))
    } else if b.len() < off + 6 + subs_row(b[0]) * n {
        Err(Error::invalid("MP4: subs subsample truncated"))
    } else {
        Ok(
            (
                SubsEntryModel { sample_delta: be32(b, off), subsamples: subsamples_at(b, off + 6, n as nat) },
                off + 6 + subs_row(b[0]) * n,
            ),
        )
    }
}

/// `n` entries from byte `off` on, behind those in `acc`.
pub open spec fn subs_entries(b: Seq<u8>, off: int, n: nat, acc: Seq<SubsEntryModel>) -> Result<(Seq<SubsEntryModel>, int)> {
    items(b, off, n, acc, |b: Seq<u8>, off: int| subs_entry_at(b, off))
}

/// The content of a `subs` payload.
pub open spec fn subs_of(b: Seq<u8>) -> Result<SubsModel> {
    if b.len() < 8 {
        Err(Error::invalid("MP4: subs too short"))
    } else {
        match subs_entries(b, 8, be32(b, 4) as nat, Seq::empty()) {
            Err(e) => Err(e),
            Ok((entries, _)) => Ok(SubsModel { version: b[0], flags: be24(b, 1), entries }),
        }
    }
}

/// Reads the entry at byte `off`.
fn read_subs_entry(body: &[u8], off: usize) -> (r: Result<(SubsEntry, usize)>)
    requires
        8 <= off <= body@.len(),
    ensures
        match r {
            Ok((e, next)) => {
                &&& subs_entry_at(body@, off as int) == Ok::<(SubsEntryModel, int), Error>((e@, next as int))
                &&& off <= next <= body@.len()
            },
            Err(e) => subs_entry_at(body@, off as int) == Err::<(SubsEntryModel, int), Error>(e),
        },
{
    let len: usize = body.len();
    if len - off < 6 {
        return Err(Error::invalid("MP4: subs entry header truncated"));
    }
    let sample_delta: u32 = read_u32(body, off);
    let n: u16 = read_u16(body, off + 4);
    let wide = body[0] == 1;
    let row: usize = if wide { 10 } else { 8 };
    let need: usize = if wide { 10 * (n as usize) } else { 8 * (n as usize) };
    if len - off - 6 < need {
        return Err(Error::invalid("MP4: subs subsample truncated"));
    }
    let mut subsamples: Vec<SubSampleEntry> = Vec::new();
    let mut i: u16 = 0;
    let mut p: usize = off + 6;
    while i < n
        invariant
            len == body@.len(),
            i <= n,
            off + 6 <= len,
            wide == (body@[0] == 1),
            row == subs_row(body@[0]),
            p == off + 6 + (if wide { 10 * i } else { 8 * i }),
            off + 6 + (if wide { 10 * n } else { 8 * n }) <= len,
            subsamples@ =~= subsamples_at(body@, off + 6, i as nat),
        decreases n - i,
    {
        let q: usize = p + row - 6;
        let subsample_size: u32 = if wide { read_u32(body, p) } else { read_u16(body, p) as u32 };
        let e = SubSampleEntry {
            subsample_size,
            subsample_priority: body[q],
            discardable: body[q + 1],
            codec_specific_parameters: read_u32(body, q + 2),
        };
        assert(e == subsample_at(body@, p as int));
        subsamples.push(e);
        p += row;
        i += 1;
    }
    Ok((SubsEntry { sample_delta, subsamples }, p))
}

/// Parses the subsample information box.
pub fn parse_subs(body: &[u8]) -> (r: Result<SubsBox>)
    ensures
        seen(r) == subs_of(body@),
{
    if body.len() < 8 {
        return Err(Error::invalid("MP4: subs too short"));
    }
    let count: u32 = read_u32(body, 4);
    let mut entries: Vec<SubsEntry> = Vec::new();
    let mut off: usize = 8;
    let mut i: u32 = 0;
    proof { assert(views(entries@) =~= Seq::<SubsEntryModel>::empty()); }
    while i < count
        invariant
            8 <= off <= body@.len(),
            i <= count,
            count == be32(body@, 4),
            subs_entries(body@, 8, count as nat, Seq::empty()) == subs_entries(
                body@,
                off as int,
                (count - i) as nat,
                views(entries@),
            ),
        decreases count - i,
    {
        let (e, next) = read_subs_entry(body, off)?;
        proof { lemma_views_push(entries@, e); }
        entries.push(e);
        off = next;
        i += 1;
    }
    Ok(SubsBox { version: body[0], flags: read_u24(body, 1), entries })
}

/// Whether the payload of a `saiz` or `saio` box names a type of auxiliary information.
pub open spec fn aux_typed(b: Seq<u8>) -> bool {
    b[3] % 2 == 1
}

/// Where the fields behind the type of auxiliary information start.
pub open spec fn aux_fields(b: Seq<u8>) -> int {
    if aux_typed(b) { 12 } else { 4 }
}

/// The content of a `saiz` payload.
pub open spec fn saiz_of(b: Seq<u8>) -> Result<SaizModel> {
    let p = aux_fields(b);
    if b.len() < 4 {
        Err(Error::invalid("MP4: saiz too short"))
    } else if aux_typed(b) && b.len() < 12 {
        Err(Error::invalid("MP4: saiz aux_info_type truncated"))
    } else if b.len() < p + 5 {
        Err(Error::invalid("MP4: saiz header truncated"))
    } else if b[p] == 0 && b.len() < p + 5 + be32(b, p + 1) {
        Err(Error::invalid("MP4: saiz sample_info_size truncated"))
    } else {
        Ok(
            SaizModel {
                aux_info_type: if aux_typed(b) { Some(code_at(b, 4)) } else { None },
                aux_info_type_parameter: if aux_typed(b) { Some(be32(b, 8)) } else { None },
                default_sample_info_size: b[p],
                sample_count: be32(b, p + 1),
                per_sample: if b[p] == 0 { b.subrange(p + 5, p + 5 + be32(b, p + 1)) } else { Seq::empty() },
            },
        )
    }
}

/// Parses the sizes of auxiliary information.
pub fn parse_saiz(body: &[u8]) -> (r: Result<SaizBox>)
    ensures
        seen(r) == saiz_of(body@),
{
    let len: usize = body.len();
    if len < 4 {
        return Err(Error::invalid("MP4: saiz too short"));
    }
    let mut p: usize = 4;
    let mut aux_info_type: Option<[u8; 4]> = None;
    let mut aux_info_type_parameter: Option<u32> = None;
    if body[3] % 2 == 1 {
        if len < 12 {
            return Err(Error::invalid("MP4: saiz aux_info_type truncated"));
        }
        aux_info_type = Some(read_code(body, 4));
        aux_info_type_parameter = Some(read_u32(body, 8));
        p = 12;
    }
    if len < p + 5 {
        return Err(Error::invalid("MP4: saiz header truncated"));
    }
    let default_sample_info_size: u8 = body[p];
    let sample_count: u32 = read_u32(body, p + 1);
    let mut per_sample: Vec<u8> = Vec::new();
    proof { assert(per_sample@ =~= Seq::<u8>::empty()); }
    if default_sample_info_size == 0 {
        if ((len - p - 5) as u64) < sample_count as u64 {
            return Err(Error::invalid("MP4: saiz sample_info_size truncated"));
        }
        per_sample = copy_bytes(&body[p + 5..p + 5 + sample_count as usize]);
    }
    Ok(SaizBox { aux_info_type, aux_info_type_parameter, default_sample_info_size, sample_count, per_sample })
}

/// The content of a `saio` payload. Its offsets are narrow in version 0 and wide in all others.
pub open spec fn saio_of(b: Seq<u8>) -> Result<SaioModel> {
    let p = aux_fields(b);
    if b.len() < 4 {
        Err(Error::invalid("MP4: saio too short"))
    } else if aux_typed(b) && b.len() < 12 {
        Err(Error::invalid("MP4: saio aux_info_type truncated"))
    } else if b.len() < p + 4 {
        Err(Error::invalid("MP4: saio entry_count truncated"))
    } else if !fits(b, p + 4, be32(b, p), if b[0] == 0 { 4 } else { 8 }) {
        Err(Error::invalid("MP4: saio offset truncated"))
    } else {
        Ok(
            SaioModel {
                version: b[0],
                aux_info_type: if aux_typed(b) { Some(code_at(b, 4)) } else { None },
                aux_info_type_parameter: if aux_typed(b) { Some(be32(b, 8)) } else { None },
                offsets: if b[0] == 0 {
                    wide_words(b, p + 4, be32(b, p) as nat)
                } else {
                    longs(b, p + 4, be32(b, p) as nat)
                },
            },
        )
    }
}

/// Parses the offsets of auxiliary information.
pub fn parse_saio(body: &[u8]) -> (r: Result<SaioBox>)
    ensures
        seen(r) == saio_of(body@),
{
    let len: usize = body.len();
    if len < 4 {
        return Err(Error::invalid("MP4: saio too short"));
    }
    let version: u8 = body[0];
    let mut p: usize = 4;
    let mut aux_info_type: Option<[u8; 4]> = None;
    let mut aux_info_type_parameter: Option<u32> = None;
    if body[3] % 2 == 1 {
        if len < 12 {
            return Err(Error::invalid("MP4: saio aux_info_type truncated"));
        }
        aux_info_type = Some(read_code(body, 4));
        aux_info_type_parameter = Some(read_u32(body, 8));
        p = 12;
    }
    if len < p + 4 {
        return Err(Error::invalid("MP4: saio entry_count truncated"));
    }
    let count: u32 = read_u32(body, p);
    let width: u32 = if version == 0 { 4 } else { 8 };
    if !rows_fit(body, p + 4, count, width) {
        return Err(Error::invalid("MP4: saio offset truncated"));
    }
    let offsets = if version == 0 { read_wide_words(body, p + 4, count) } else { read_longs(body, p + 4, count) };
    Ok(SaioBox { version, aux_info_type, aux_info_type_parameter, offsets })
}

}
