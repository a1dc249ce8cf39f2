//! How the boxes of a fragment are laid out: what is written field by field is read back.
use vstd::prelude::*;
use crate::bytes::{be24, be32, be64, enc24, enc32, enc64, law_enc24_be24, law_enc32_be32, law_enc64_be64, s32, u32_of};
use crate::error::Error;
use crate::fragment::{
    tfdt_of, tfhd_of, trun_of, trun_row, trun_sample_at, trun_samples_at, TrafState, TrunModel, TrunSample,
};
use crate::movie::{lemma_track_index, track_index};
use crate::roundtrip::lemma_split;
use crate::track::TrackModel;

verus! {

/// The bytes of a number that may be missing.
pub open spec fn opt32(o: Option<u32>) -> Seq<u8> {
    match o {
        Some(x) => enc32(x),
        None => Seq::empty(),
    }
}

/// The bytes of a long number that may be missing.
pub open spec fn opt64(o: Option<u64>) -> Seq<u8> {
    match o {
        Some(x) => enc64(x),
        None => Seq::empty(),
    }
}

/// The bytes of a signed number that may be missing.
pub open spec fn opt_signed(o: Option<i32>) -> Seq<u8> {
    match o {
        Some(x) => enc32(u32_of(x)),
        None => Seq::empty(),
    }
}

/// Whether the bit of a flags word that has the given weight is set.
pub open spec fn bit(flags: u32, weight: int) -> bool {
    flags as int / weight % 2 == 1
}

/// Whether the bytes stand at byte `q`.
pub open spec fn at(b: Seq<u8>, q: int, x: Seq<u8>) -> bool {
    &&& 0 <= q
    &&& q + x.len() <= b.len()
    &&& b.subrange(q, q + x.len()) == x
}

/// Bytes that are the whole stand at its start.
pub proof fn lemma_whole(b: Seq<u8>)
    ensures
        at(b, 0, b),
{
    assert(b.subrange(0, b.len() as int) =~= b);
}

/// Of two byte strings one behind the other each stands in its place.
pub proof fn lemma_peel(b: Seq<u8>, q: int, x: Seq<u8>, y: Seq<u8>)
    requires
        at(b, q, x + y),
    ensures
        at(b, q, x),
        at(b, q + x.len(), y),
{
    lemma_split(b, q, x, y);
}

pub proof fn lemma_at32(b: Seq<u8>, q: int, x: u32)
    requires
        at(b, q, enc32(x)),
    ensures
        be32(b, q) == x,
{
    law_enc32_be32(x, b, q);
}

pub proof fn lemma_at64(b: Seq<u8>, q: int, x: u64)
    requires
        at(b, q, enc64(x)),
    ensures
        be64(b, q) == x,
{
    law_enc64_be64(x, b, q);
}

pub proof fn lemma_opt32(b: Seq<u8>, q: int, o: Option<u32>)
    requires
        at(b, q, opt32(o)),
    ensures
        opt32(o).len() == (if o is Some { 4nat } else { 0nat }),
        o is Some ==> be32(b, q) == o->Some_0,
{
    if let Some(x) = o {
        lemma_at32(b, q, x);
    }
}

pub proof fn lemma_opt64(b: Seq<u8>, q: int, o: Option<u64>)
    requires
        at(b, q, opt64(o)),
    ensures
        opt64(o).len() == (if o is Some { 8nat } else { 0nat }),
        o is Some ==> be64(b, q) == o->Some_0,
{
    if let Some(x) = o {
        lemma_at64(b, q, x);
    }
}

/// A version byte and flags are read.
pub proof fn lemma_version(b: Seq<u8>, v: u8, x: u32)
    requires
        x < 0x100_0000,
        at(b, 0, seq![v] + enc24(x)),
    ensures
        be24(b, 1) == x,
        b[0] == v,
{
    lemma_peel(b, 0, seq![v], enc24(x));
    law_enc24_be24(x, b, 1);
    assert(b.subrange(0, 1)[0] == b[0]);
}

/// A track fragment header: its track, and, where its flags announce them, the base of data offsets, the
/// sample description, and the default duration, size and flags.
pub open spec fn tfhd_layout(
    v: u8,
    flags: u32,
    track_id: u32,
    base: Option<u64>,
    description: Option<u32>,
    duration: Option<u32>,
    size: Option<u32>,
    sample_flags: Option<u32>,
) -> Seq<u8> {
    seq![v] + enc24(flags) + enc32(track_id) + opt64(base) + opt32(description) + opt32(duration) + opt32(size) + opt32(
        sample_flags,
    )
}

/// A track fragment header is read field by field: what it leaves out comes from the defaults of the track,
/// and the base of data offsets is then where the movie fragment starts.
pub proof fn law_tfhd_layout(
    s: TrafState,
    v: u8,
    flags: u32,
    track_id: u32,
    base: Option<u64>,
    description: Option<u32>,
    duration: Option<u32>,
    size: Option<u32>,
    sample_flags: Option<u32>,
    moof_start: u64,
    tracks: Seq<TrackModel>,
    k: int,
)
    requires
        flags < 0x100_0000,
        bit(flags, 1) == (base is Some),
        bit(flags, 2) == (description is Some),
        bit(flags, 8) == (duration is Some),
        bit(flags, 0x10) == (size is Some),
        bit(flags, 0x20) == (sample_flags is Some),
        0 <= k < tracks.len() <= usize::MAX,
        tracks[k].track_id == track_id,
        forall|j: int| 0 <= j < k ==> (#[trigger] tracks[j]).track_id != track_id,
    ensures
        ({
            let b = tfhd_layout(v, flags, track_id, base, description, duration, size, sample_flags);
            let (t, r) = tfhd_of(s, b, moof_start, tracks);
            let d = tracks[k].trex;
            &&& r is Ok
            &&& t.track_idx == k
            &&& t.base_data_offset == (if base is Some { base->Some_0 } else { moof_start })
            &&& t.default_sample_duration == (if duration is Some { duration->Some_0 } else { d.default_sample_duration })
            &&& t.default_sample_size == (if size is Some { size->Some_0 } else { d.default_sample_size })
            &&& t.default_sample_flags == (if sample_flags is Some { sample_flags->Some_0 } else { d.default_sample_flags })
            &&& t.base_media_decode_time == s.base_media_decode_time
        }),
{
    let b = tfhd_layout(v, flags, track_id, base, description, duration, size, sample_flags);
    let a1 = opt64(base);
    let a2 = opt32(description);
    let a3 = opt32(duration);
    let a4 = opt32(size);
    let a5 = opt32(sample_flags);
    let h = seq![v] + enc24(flags);
    let h2 = h + enc32(track_id);
    lemma_track_index(tracks, track_id);
    assert(track_index(tracks, track_id) == k);
    lemma_whole(b);
    lemma_peel(b, 0, h2 + a1 + a2 + a3 + a4, a5);
    lemma_peel(b, 0, h2 + a1 + a2 + a3, a4);
    lemma_peel(b, 0, h2 + a1 + a2, a3);
    lemma_peel(b, 0, h2 + a1, a2);
    lemma_peel(b, 0, h2, a1);
    lemma_peel(b, 0, h, enc32(track_id));
    lemma_version(b, v, flags);
    lemma_at32(b, 4, track_id);
    let p1 = 8 + a1.len();
    let p2 = p1 + a2.len();
    let p3 = p2 + a3.len();
    let p4 = p3 + a4.len();
    lemma_opt64(b, 8, base);
    lemma_opt32(b, p1 as int, description);
    lemma_opt32(b, p2 as int, duration);
    lemma_opt32(b, p3 as int, size);
    lemma_opt32(b, p4 as int, sample_flags);
}

/// A decode time is read: eight bytes in version 1, else four.
pub proof fn law_tfdt_layout(v: u8, flags: u32, time: u64)
    requires
        flags < 0x100_0000,
        v == 1 ==> time <= i64::MAX,
        v != 1 ==> time <= u32::MAX,
    ensures
        tfdt_of(seq![v] + enc24(flags) + (if v == 1 { enc64(time) } else { enc32(time as u32) })) == Ok::<i64, Error>(
            time as i64,
        ),
{
    let h = seq![v] + enc24(flags);
    let rest = if v == 1 { enc64(time) } else { enc32(time as u32) };
    let b = h + rest;
    lemma_whole(b);
    lemma_peel(b, 0, h, rest);
    lemma_version(b, v, flags);
    if v == 1 {
        lemma_at64(b, 4, time);
    } else {
        lemma_at32(b, 4, time as u32);
    }
}

/// Which fields the rows of a track run have.
pub ghost struct RunFields {
    pub duration: bool,
    pub size: bool,
    pub flags: bool,
    pub offset: bool,
}

/// Whether a row has the fields.
pub open spec fn row_has(row: TrunSample, f: RunFields) -> bool {
    &&& row.duration is Some == f.duration
    &&& row.size is Some == f.size
    &&& row.flags is Some == f.flags
    &&& row.composition_time_offset is Some == f.offset
}

/// The bytes of a row: its fields, one behind the other.
pub open spec fn row_layout(row: TrunSample) -> Seq<u8> {
    opt32(row.duration) + opt32(row.size) + opt32(row.flags) + opt_signed(row.composition_time_offset)
}

/// The bytes of the first `n` rows.
pub open spec fn rows_layout(rows: Seq<TrunSample>, n: int) -> Seq<u8>
    decreases n,
{
    if n <= 0 { Seq::empty() } else { rows_layout(rows, n - 1) + row_layout(rows[n - 1]) }
}

/// A track run: the number of its rows, an offset and flags for the first sample where its flags announce
/// them, and the rows.
pub open spec fn trun_layout(v: u8, flags: u32, run: TrunModel) -> Seq<u8> {
    seq![v] + enc24(flags) + enc32(run.samples.len() as u32) + opt_signed(run.data_offset) + opt32(
        run.first_sample_flags,
    ) + rows_layout(run.samples, run.samples.len() as int)
}

/// Whether the flags of a track run announce what it has.
pub open spec fn announces(flags: u32, run: TrunModel, f: RunFields) -> bool {
    &&& flags < 0x100_0000
    &&& bit(flags, 1) == (run.data_offset is Some)
    &&& bit(flags, 4) == (run.first_sample_flags is Some)
    &&& bit(flags, 0x100) == f.duration
    &&& bit(flags, 0x200) == f.size
    &&& bit(flags, 0x400) == f.flags
    &&& bit(flags, 0x800) == f.offset
    &&& forall|i: int| 0 <= i < run.samples.len() ==> row_has(#[trigger] run.samples[i], f)
    &&& run.samples.len() <= u32::MAX
}

spec fn row_width(f: RunFields) -> int {
    (if f.duration { 4int } else { 0 }) + (if f.size { 4int } else { 0 }) + (if f.flags { 4int } else { 0 }) + (if f.offset {
        4int
    } else {
        0
    })
}

proof fn lemma_rows_width(rows: Seq<TrunSample>, n: int, f: RunFields)
    requires
        0 <= n <= rows.len(),
        forall|i: int| 0 <= i < rows.len() ==> row_has(#[trigger] rows[i], f),
    ensures
        rows_layout(rows, n).len() == row_width(f) * n,
    decreases n,
{
    let w = row_width(f);
    if n > 0 {
        lemma_rows_width(rows, n - 1, f);
        assert(row_has(rows[n - 1], f));
        assert(row_layout(rows[n - 1]).len() == w);
        assert(w * n == w * (n - 1) + w) by (nonlinear_arith);
    } else {
        assert(w * 0 == 0);
    }
}

/// A row stands behind those before it.
proof fn lemma_row_at(b: Seq<u8>, q: int, rows: Seq<TrunSample>, i: int, n: int)
    requires
        0 <= i < n <= rows.len(),
        at(b, q, rows_layout(rows, n)),
    ensures
        at(b, q + rows_layout(rows, i).len(), row_layout(rows[i])),
    decreases n,
{
    lemma_peel(b, q, rows_layout(rows, n - 1), row_layout(rows[n - 1]));
    if i < n - 1 {
        lemma_row_at(b, q, rows, i, n - 1);
    }
}

proof fn lemma_signed(b: Seq<u8>, q: int, o: Option<i32>)
    requires
        at(b, q, opt_signed(o)),
    ensures
        opt_signed(o).len() == (if o is Some { 4nat } else { 0nat }),
        o is Some ==> s32(be32(b, q)) == o->Some_0,
{
    if let Some(x) = o {
        lemma_at32(b, q, u32_of(x));
    }
}

proof fn lemma_row_read(b: Seq<u8>, q: int, row: TrunSample, flags: u32, f: RunFields)
    requires
        at(b, q, row_layout(row)),
        row_has(row, f),
        bit(flags, 0x100) == f.duration,
        bit(flags, 0x200) == f.size,
        bit(flags, 0x400) == f.flags,
        bit(flags, 0x800) == f.offset,
    ensures
        trun_sample_at(b, flags, q) == row,
{
    let a1 = opt32(row.duration);
    let a2 = opt32(row.size);
    let a3 = opt32(row.flags);
    let a4 = opt_signed(row.composition_time_offset);
    lemma_peel(b, q, a1 + a2 + a3, a4);
    lemma_peel(b, q, a1 + a2, a3);
    lemma_peel(b, q, a1, a2);
    lemma_opt32(b, q, row.duration);
    lemma_opt32(b, q + a1.len(), row.size);
    lemma_opt32(b, q + a1.len() + a2.len(), row.flags);
    lemma_signed(b, q + a1.len() + a2.len() + a3.len(), row.composition_time_offset);
}

/// A track run is read back, whatever fields it has.
pub proof fn law_trun_layout(v: u8, flags: u32, run: TrunModel, f: RunFields)
    requires
        announces(flags, run, f),
    ensures
        trun_of(trun_layout(v, flags, run)) == Ok::<TrunModel, Error>(run),
{
    let b = trun_layout(v, flags, run);
    let rows = run.samples;
    let n = rows.len() as int;
    let h = seq![v] + enc24(flags);
    let h2 = h + enc32(n as u32);
    let a1 = opt_signed(run.data_offset);
    let a2 = opt32(run.first_sample_flags);
    let w = row_width(f);
    let p = 8 + a1.len() + a2.len();
    lemma_whole(b);
    lemma_peel(b, 0, h2 + a1 + a2, rows_layout(rows, n));
    lemma_peel(b, 0, h2 + a1, a2);
    lemma_peel(b, 0, h2, a1);
    lemma_peel(b, 0, h, enc32(n as u32));
    lemma_version(b, v, flags);
    lemma_at32(b, 4, n as u32);
    lemma_signed(b, 8, run.data_offset);
    lemma_opt32(b, 8 + a1.len() as int, run.first_sample_flags);
    lemma_rows_width(rows, n, f);
    assert(trun_row(flags) == w);
    assert(b.len() == p + w * n);
    assert forall|i: int| 0 <= i < n implies trun_sample_at(b, flags, p + w * i) == #[trigger] rows[i] by {
        lemma_rows_width(rows, i, f);
        lemma_row_at(b, p as int, rows, i, n);
        lemma_row_read(b, p + w * i, rows[i], flags, f);
    }
    assert(trun_samples_at(b, flags, p as int, n as nat) =~= rows);
}

}
