//! What is read back of what was written: a movie fragment comes back as the samples it was made of,
//! each with the place of its data.
use vstd::prelude::*;
use crate::boxes::{body_of, boxed, child_at, header_at, next_pos};
use crate::bytes::{be32, enc24, enc32, enc64, law_enc24_be24, law_enc32_be32, law_enc64_be64, s64, u32_of};
use crate::error::Error;
use crate::flags::SAMPLE_IS_NON_SYNC;
use crate::frag::{
    any_offset, brand_payload, data_len, data_offset, defaults_for, enc_if, enc_opt, ftyp_bytes,
    init_moov_bytes, law_moof_len, mfhd_payload, moof_bytes, moof_len, moof_payload, mvex_bytes,
    tfdt_payload, tfhd_flags, tfhd_payload, traf_payload, trafs_from, traks_from, trex_payload,
    trun_flags, trun_head, trun_payload, trun_row_bytes, trun_rows_bytes, BrandPreset, FragTrackModel,
    FragmentDefaults, PendingModel,
};
use crate::fragment::{
    flag_set, moof_from, moof_of, no_scan, number_from, or_default, room, run_flags, run_from, run_of, run_step,
    runs_from, scan_from, tfdt_of, tfhd_of, traf_of, trun_of, trun_row, trun_sample_at, trun_samples_at,
    FragModel, MoofModel, MoofPsshModel, MoofScan, RunState, TrafScan, TrafState, TrunModel, TrunSample,
    TFHD_BASE_DATA_OFFSET_PRESENT, TFHD_DEFAULT_BASE_IS_MOOF, TFHD_DEFAULT_SAMPLE_DURATION_PRESENT,
    TFHD_DEFAULT_SAMPLE_FLAGS_PRESENT, TFHD_DEFAULT_SAMPLE_SIZE_PRESENT,
    TFHD_SAMPLE_DESCRIPTION_INDEX_PRESENT, TRUN_DATA_OFFSET_PRESENT, TRUN_FIRST_SAMPLE_FLAGS_PRESENT,
    TRUN_SAMPLE_COMPOSITION_TIME_OFFSETS_PRESENT, TRUN_SAMPLE_DURATION_PRESENT,
    TRUN_SAMPLE_FLAGS_PRESENT, TRUN_SAMPLE_SIZE_PRESENT,
};
use crate::kinds::{FTYP, MDAT, MFHD, MOOF, MOOV, STYP, TFDT, TFHD, TRAF, TRUN};
use crate::movie::{lemma_track_index, track_index, trex_of};
use crate::muxer::{
    fragment_bytes, header_of, next_number, samples_data, segment_type, ticks, tracks_data, MuxModel,
};
use crate::numbers::{clamp64, low32};
use crate::samples::SampleRef;
use crate::toplevel::{file_end, file_from, file_holds, top_body, wants_body, TopModel};
use crate::track::{TrackModel, TrexDefaults};
use crate::trak::leading_media_time;

verus! {

/// Whether a box of the given code and payload stands at byte `pos`.
pub open spec fn box_at(b: Seq<u8>, pos: int, code: u32, payload: Seq<u8>) -> bool {
    &&& 0 <= pos
    &&& pos + 8 + payload.len() <= b.len()
    &&& 8 + payload.len() < 0x1_0000_0000
    &&& b.subrange(pos, pos + 8 + payload.len()) == boxed(code, payload)
}

/// The size, the code and the payload of a box that was written are read back.
proof fn lemma_box_parts(b: Seq<u8>, pos: int, code: u32, payload: Seq<u8>)
    requires
        box_at(b, pos, code, payload),
    ensures
        be32(b, pos) == 8 + payload.len(),
        be32(b, pos + 4) == code,
        b.subrange(pos + 8, pos + 8 + payload.len()) == payload,
{
    let x = boxed(code, payload);
    let len = payload.len() as int;
    let w = b.subrange(pos, pos + 8 + len);
    let n = (8 + len) as u32;
    assert(low32(8 + len) == n);
    assert(b.subrange(pos, pos + 4) =~= enc32(n)) by {
        assert(x.subrange(0, 4) =~= enc32(n));
        assert(b.subrange(pos, pos + 4) =~= w.subrange(0, 4));
    }
    assert(b.subrange(pos + 4, pos + 8) =~= enc32(code)) by {
        assert(x.subrange(4, 8) =~= enc32(code));
        assert(b.subrange(pos + 4, pos + 8) =~= w.subrange(4, 8));
    }
    law_enc32_be32(n, b, pos);
    law_enc32_be32(code, b, pos + 4);
    assert(b.subrange(pos + 8, pos + 8 + len) =~= payload) by {
        assert(x.subrange(8, 8 + len) =~= payload);
        assert(b.subrange(pos + 8, pos + 8 + len) =~= w.subrange(8, 8 + len));
    }
}

/// A box that was written is met by a walk as a whole child.
pub proof fn law_box_read_back(b: Seq<u8>, pos: int, code: u32, payload: Seq<u8>)
    requires
        box_at(b, pos, code, payload),
    ensures
        header_at(b, pos) matches Ok(h) && {
            &&& child_at(b, pos, h).kind == code
            &&& body_of(child_at(b, pos, h)) == Ok::<Seq<u8>, Error>(payload)
            &&& next_pos(b, pos, h) == pos + 8 + payload.len()
        },
{
    lemma_box_parts(b, pos, code, payload);
}

/// A track fragment header says that offsets are from the start of the fragment, and announces exactly what
/// the samples agree on.
pub proof fn law_tfhd_flags(d: FragmentDefaults)
    ensures
        ({
            let f = tfhd_flags(d);
            &&& f < 0x100_0000
            &&& flag_set(f, TFHD_DEFAULT_BASE_IS_MOOF)
            &&& !flag_set(f, TFHD_BASE_DATA_OFFSET_PRESENT)
            &&& !flag_set(f, TFHD_SAMPLE_DESCRIPTION_INDEX_PRESENT)
            &&& flag_set(f, TFHD_DEFAULT_SAMPLE_DURATION_PRESENT) == (d.homogeneous_duration is Some)
            &&& flag_set(f, TFHD_DEFAULT_SAMPLE_SIZE_PRESENT) == (d.homogeneous_size is Some)
            &&& flag_set(f, TFHD_DEFAULT_SAMPLE_FLAGS_PRESENT) == (d.homogeneous_flags is Some)
        }),
{
}

/// A track fragment header is read back as what it was made of.
proof fn lemma_tfhd_back(track_id: u32, d: FragmentDefaults, s: TrafState, moof_start: u64, tracks: Seq<TrackModel>)
    requires
        track_index(tracks, track_id) < tracks.len() <= usize::MAX,
    ensures
        ({
            let k = track_index(tracks, track_id);
            let trex = tracks[k].trex;
            tfhd_of(s, tfhd_payload(track_id, d), moof_start, tracks) == (
                TrafState {
                    track_idx: k as usize,
                    tfhd_flags: tfhd_flags(d),
                    base_data_offset: moof_start,
                    default_sample_duration: or_default(d.homogeneous_duration, trex.default_sample_duration),
                    default_sample_size: or_default(d.homogeneous_size, trex.default_sample_size),
                    default_sample_flags: or_default(d.homogeneous_flags, trex.default_sample_flags),
                    base_media_decode_time: s.base_media_decode_time,
                },
                Ok::<(), Error>(()),
            )
        }),
{
    let b = tfhd_payload(track_id, d);
    let f = tfhd_flags(d);
    law_tfhd_flags(d);
    let p3 = 8 + enc_opt(d.homogeneous_duration).len() as int;
    let p4 = p3 + enc_opt(d.homogeneous_size).len() as int;
    assert(b.subrange(1, 4) =~= enc24(f));
    law_enc24_be24(f, b, 1);
    assert(b.subrange(4, 8) =~= enc32(track_id));
    law_enc32_be32(track_id, b, 4);
    if let Some(x) = d.homogeneous_duration {
        assert(b.subrange(8, 12) =~= enc32(x));
        law_enc32_be32(x, b, 8);
    }
    if let Some(x) = d.homogeneous_size {
        assert(b.subrange(p3, p3 + 4) =~= enc32(x));
        law_enc32_be32(x, b, p3);
    }
    if let Some(x) = d.homogeneous_flags {
        assert(b.subrange(p4, p4 + 4) =~= enc32(x));
        law_enc32_be32(x, b, p4);
    }
}

/// A decode time is read back.
proof fn lemma_tfdt_back(bmdt: u64)
    ensures
        tfdt_of(tfdt_payload(bmdt)) == Ok::<i64, Error>(s64(bmdt)),
{
    let b = tfdt_payload(bmdt);
    assert(b[0] == enc32(0x100_0000)[0]);
    assert(b.subrange(4, 12) =~= enc64(bmdt));
    law_enc64_be64(bmdt, b, 4);
}

/// The flags of the track run that is written for the samples.
pub open spec fn written_flags(p: Seq<PendingModel>) -> u32 {
    trun_flags(defaults_for(p), any_offset(p))
}

/// Which flags of a track run are set.
proof fn lemma_trun_flags(p: Seq<PendingModel>)
    ensures
        ({
            let f = written_flags(p);
            let d = defaults_for(p);
            &&& f < 0x100_0000
            &&& flag_set(f, TRUN_DATA_OFFSET_PRESENT)
            &&& flag_set(f, TRUN_FIRST_SAMPLE_FLAGS_PRESENT) == d.first_sample_distinct
            &&& flag_set(f, TRUN_SAMPLE_DURATION_PRESENT) == (d.homogeneous_duration is None)
            &&& flag_set(f, TRUN_SAMPLE_SIZE_PRESENT) == (d.homogeneous_size is None)
            &&& flag_set(f, TRUN_SAMPLE_FLAGS_PRESENT) == (d.homogeneous_flags is None)
            &&& flag_set(f, TRUN_SAMPLE_COMPOSITION_TIME_OFFSETS_PRESENT) == any_offset(p)
        }),
{
}

/// The row of a sample as it is read back: what the samples agree on is missing.
pub open spec fn row_of(d: FragmentDefaults, cts: bool, s: PendingModel) -> TrunSample {
    TrunSample {
        duration: if d.homogeneous_duration is None { Some(s.duration) } else { None },
        size: if d.homogeneous_size is None { Some(s.size()) } else { None },
        flags: if d.homogeneous_flags is None { Some(s.flags) } else { None },
        composition_time_offset: if cts { Some(s.composition_time_offset) } else { None },
    }
}

/// A part of a byte string that is the first of two parts of another.
pub proof fn lemma_split(b: Seq<u8>, q: int, x: Seq<u8>, y: Seq<u8>)
    requires
        0 <= q,
        q + x.len() + y.len() <= b.len(),
        b.subrange(q, q + x.len() + y.len()) == x + y,
    ensures
        b.subrange(q, q + x.len()) == x,
        b.subrange(q + x.len(), q + x.len() + y.len()) == y,
{
    let w = b.subrange(q, q + x.len() + y.len());
    assert(b.subrange(q, q + x.len()) =~= w.subrange(0, x.len() as int));
    assert((x + y).subrange(0, x.len() as int) =~= x);
    assert(b.subrange(q + x.len(), q + x.len() + y.len()) =~= w.subrange(x.len() as int, x.len() + y.len() as int));
    assert((x + y).subrange(x.len() as int, x.len() + y.len() as int) =~= y);
}

/// A number that was written where it was wanted is read back.
proof fn lemma_enc_if(b: Seq<u8>, q: int, want: bool, x: u32)
    requires
        0 <= q,
        q + enc_if(want, x).len() <= b.len(),
        b.subrange(q, q + enc_if(want, x).len()) == enc_if(want, x),
    ensures
        enc_if(want, x).len() == (if want { 4nat } else { 0nat }),
        want ==> be32(b, q) == x,
{
    if want {
        law_enc32_be32(x, b, q);
    }
}

/// A row is read back.
proof fn lemma_row_back(b: Seq<u8>, p: Seq<PendingModel>, q: int, s: PendingModel)
    requires
        0 <= q,
        q + trun_row(written_flags(p)) <= b.len(),
        b.subrange(q, q + trun_row(written_flags(p))) == trun_row_bytes(defaults_for(p), any_offset(p), s),
    ensures
        trun_sample_at(b, written_flags(p), q) == row_of(defaults_for(p), any_offset(p), s),
{
    let d = defaults_for(p);
    let cts = any_offset(p);
    lemma_trun_flags(p);
    let a1 = enc_if(d.homogeneous_duration is None, s.duration);
    let a2 = enc_if(d.homogeneous_size is None, s.size());
    let a3 = enc_if(d.homogeneous_flags is None, s.flags);
    let a4 = enc_if(cts, u32_of(s.composition_time_offset));
    assert(trun_row_bytes(d, cts, s) == a1 + a2 + a3 + a4);
    assert(trun_row(written_flags(p)) == a1.len() + a2.len() + a3.len() + a4.len());
    lemma_split(b, q, a1 + a2 + a3, a4);
    lemma_split(b, q, a1 + a2, a3);
    lemma_split(b, q, a1, a2);
    let q1 = q + a1.len();
    let q2 = q1 + a2.len();
    let q3 = q2 + a3.len();
    lemma_enc_if(b, q, d.homogeneous_duration is None, s.duration);
    lemma_enc_if(b, q1, d.homogeneous_size is None, s.size());
    lemma_enc_if(b, q2, d.homogeneous_flags is None, s.flags);
    lemma_enc_if(b, q3, cts, u32_of(s.composition_time_offset));
}

proof fn lemma_rows_len(p: Seq<PendingModel>, rows: Seq<PendingModel>, n: int)
    requires
        0 <= n <= rows.len(),
    ensures
        trun_rows_bytes(defaults_for(p), any_offset(p), rows, n).len() == trun_row(written_flags(p)) * n,
    decreases n,
{
    let w = trun_row(written_flags(p));
    lemma_trun_flags(p);
    if n > 0 {
        lemma_rows_len(p, rows, n - 1);
        assert(trun_row_bytes(defaults_for(p), any_offset(p), rows[n - 1]).len() == w);
        assert(w * n == w * (n - 1) + w) by (nonlinear_arith);
    } else {
        assert(w * 0 == 0);
    }
}

/// The rows that were written at byte `q` are read back.
proof fn lemma_rows_back(b: Seq<u8>, p: Seq<PendingModel>, q: int, n: int)
    requires
        0 <= q,
        0 <= n <= p.len(),
        q + trun_row(written_flags(p)) * n <= b.len(),
        b.subrange(q, q + trun_row(written_flags(p)) * n) == trun_rows_bytes(defaults_for(p), any_offset(p), p, n),
    ensures
        trun_samples_at(b, written_flags(p), q, n as nat) == Seq::new(
            n as nat,
            |i: int| row_of(defaults_for(p), any_offset(p), p[i]),
        ),
    decreases n,
{
    let f = written_flags(p);
    let w = trun_row(f);
    let d = defaults_for(p);
    let cts = any_offset(p);
    if n > 0 {
        assert(w * n == w * (n - 1) + w) by (nonlinear_arith);
        assert(w * (n - 1) >= 0) by (nonlinear_arith)
            requires w >= 0, n >= 1;
        lemma_rows_len(p, p, n - 1);
        lemma_rows_len(p, p, n);
        let all = trun_rows_bytes(d, cts, p, n);
        let head = trun_rows_bytes(d, cts, p, n - 1);
        let last = trun_row_bytes(d, cts, p[n - 1]);
        let k = w * (n - 1);
        assert(all == head + last);
        assert(b.subrange(q, q + k) =~= head) by {
            assert(all.subrange(0, k) =~= head);
            assert(b.subrange(q, q + k) =~= b.subrange(q, q + w * n).subrange(0, k));
        }
        assert(b.subrange(q + k, q + k + w) =~= last) by {
            assert(all.subrange(k, k + w) =~= last);
            assert(b.subrange(q + k, q + k + w) =~= b.subrange(q, q + w * n).subrange(k, k + w));
        }
        lemma_rows_back(b, p, q, n - 1);
        lemma_row_back(b, p, q + k, p[n - 1]);
        let got = trun_samples_at(b, f, q, n as nat);
        let want = Seq::new(n as nat, |i: int| row_of(d, cts, p[i]));
        assert forall|i: int| 0 <= i < n implies got[i] == want[i] by {
            if i < n - 1 {
                assert(trun_samples_at(b, f, q, (n - 1) as nat)[i] == Seq::new(
                    (n - 1) as nat,
                    |i: int| row_of(d, cts, p[i]),
                )[i]);
            }
        }
        assert(got =~= want);
    } else {
        assert(trun_samples_at(b, f, q, 0) =~= Seq::new(0, |i: int| row_of(d, cts, p[i])));
    }
}

/// The run of samples as it is read back.
pub open spec fn run_model(p: Seq<PendingModel>, offset: i32) -> TrunModel {
    let d = defaults_for(p);
    TrunModel {
        data_offset: Some(offset),
        first_sample_flags: if d.first_sample_distinct { Some(d.first_sample_flags) } else { None },
        samples: Seq::new(p.len(), |i: int| row_of(d, any_offset(p), p[i])),
    }
}

/// A track run is read back.
proof fn lemma_trun_back(p: Seq<PendingModel>, offset: i32)
    requires
        p.len() < 0x1_0000_0000,
    ensures
        trun_of(trun_payload(p, offset, defaults_for(p))) == Ok::<TrunModel, Error>(run_model(p, offset)),
{
    let b = trun_payload(p, offset, defaults_for(p));
    let d = defaults_for(p);
    let f = written_flags(p);
    let h = trun_head(p, offset, defaults_for(p));
    let n = p.len() as int;
    let rows = trun_rows_bytes(d, any_offset(p), p, n);
    lemma_trun_flags(p);
    lemma_rows_len(p, p, n);
    assert(b.subrange(1, 4) =~= enc24(f));
    law_enc24_be24(f, b, 1);
    assert(b.subrange(4, 8) =~= enc32(low32(n)));
    law_enc32_be32(low32(n), b, 4);
    assert(b.subrange(8, 12) =~= enc32(u32_of(offset)));
    law_enc32_be32(u32_of(offset), b, 8);
    if d.first_sample_distinct {
        assert(b.subrange(12, 16) =~= enc32(d.first_sample_flags));
        law_enc32_be32(d.first_sample_flags, b, 12);
    }
    let q = h.len() as int;
    assert(q == 12 + room(f, TRUN_FIRST_SAMPLE_FLAGS_PRESENT, 4));
    assert(b.subrange(q, q + trun_row(f) * n) =~= rows);
    lemma_rows_back(b, p, q, n);
}

/// The `j`th sample of a fragment as it is read back: its data starts behind that of the samples before
/// it, and it is decoded when they have been.
pub open spec fn written_sample(p: Seq<PendingModel>, j: int, track_idx: u32, start: int, bmdt: int, shift: i64) -> SampleRef {
    SampleRef {
        track_idx,
        offset: (start + data_len(p, j)) as u64,
        size: p[j].size(),
        pts: clamp64(clamp64(bmdt + ticks(p, j) + p[j].composition_time_offset) - shift),
        dts: clamp64(bmdt + ticks(p, j) - shift),
        duration: p[j].duration as i64,
        keyframe: !flag_set(p[j].flags, SAMPLE_IS_NON_SYNC),
    }
}

/// The samples of a fragment as they are read back.
pub open spec fn written_samples(p: Seq<PendingModel>, track_idx: u32, start: int, bmdt: int, shift: i64) -> Seq<SampleRef> {
    Seq::new(p.len(), |j: int| written_sample(p, j, track_idx, start, bmdt, shift))
}

/// Whether the sizes of samples fit in 32 bits.
pub open spec fn sizes_fit(p: Seq<PendingModel>) -> bool {
    forall|j: int| 0 <= j < p.len() ==> (#[trigger] p[j]).data.len() < 0x1_0000_0000
}

proof fn lemma_sums_grow(p: Seq<PendingModel>, i: int, n: int)
    requires
        0 <= i <= n <= p.len(),
    ensures
        0 <= data_len(p, i) <= data_len(p, n),
        0 <= ticks(p, i) <= ticks(p, n),
    decreases n,
{
    if i < n {
        lemma_sums_grow(p, i, n - 1);
    } else if n > 0 {
        lemma_sums_grow(p, i - 1, n - 1);
    }
}

/// Whether the state of a track fragment has as defaults what the samples agree on.
pub open spec fn defaults_match(st: TrafState, p: Seq<PendingModel>) -> bool {
    let d = defaults_for(p);
    &&& d.homogeneous_duration matches Some(x) ==> st.default_sample_duration == x
    &&& d.homogeneous_size matches Some(x) ==> st.default_sample_size == x
    &&& d.homogeneous_flags matches Some(x) ==> st.default_sample_flags == x
}

/// A sample of a run comes to what it was made of.
proof fn lemma_run_step(s: RunState, p: Seq<PendingModel>, offset: i32, i: int, st: TrafState, shift: i64, start: int, bmdt: int)
    requires
        0 <= i < p.len(),
        sizes_fit(p),
        defaults_match(st, p),
        0 <= start,
        0 <= bmdt,
        start + data_len(p, p.len() as int) <= u64::MAX,
        bmdt + ticks(p, p.len() as int) <= i64::MAX,
        s.offset == start + data_len(p, i),
        s.dts == bmdt + ticks(p, i),
    ensures
        run_step(s, run_model(p, offset), i, st, shift) == (RunState {
            offset: (start + data_len(p, i + 1)) as u64,
            dts: (bmdt + ticks(p, i + 1)) as i64,
            samples: s.samples.push(written_sample(p, i, low32(st.track_idx as int), start, bmdt, shift)),
        }),
{
    let run = run_model(p, offset);
    let d = defaults_for(p);
    let row = run.samples[i];
    assert(row == row_of(d, any_offset(p), p[i]));
    lemma_sums_grow(p, i, i + 1);
    lemma_sums_grow(p, i + 1, p.len() as int);
    assert(p[i].data.len() < 0x1_0000_0000);
    assert(or_default(row.size, st.default_sample_size) == p[i].size());
    assert(or_default(row.duration, st.default_sample_duration) == p[i].duration);
    assert(or_default(row.composition_time_offset, 0) == p[i].composition_time_offset);
    assert(run_flags(run, i, st) == p[i].flags);
    assert(data_len(p, i + 1) == data_len(p, i) + p[i].data.len());
    assert(ticks(p, i + 1) == ticks(p, i) + p[i].duration);
}

/// The samples of a run from the `i`th on come to what they were made of.
proof fn lemma_run_back(s: RunState, p: Seq<PendingModel>, offset: i32, i: int, st: TrafState, shift: i64, start: int, bmdt: int)
    requires
        0 <= i <= p.len(),
        sizes_fit(p),
        defaults_match(st, p),
        0 <= start,
        0 <= bmdt,
        start + data_len(p, p.len() as int) <= u64::MAX,
        bmdt + ticks(p, p.len() as int) <= i64::MAX,
        s.offset == start + data_len(p, i),
        s.dts == bmdt + ticks(p, i),
    ensures
        ({
            let all = written_samples(p, low32(st.track_idx as int), start, bmdt, shift);
            run_from(s, run_model(p, offset), i, st, shift) == (RunState {
                offset: (start + data_len(p, p.len() as int)) as u64,
                dts: (bmdt + ticks(p, p.len() as int)) as i64,
                samples: s.samples + all.subrange(i, p.len() as int),
            })
        }),
    decreases p.len() - i,
{
    let all = written_samples(p, low32(st.track_idx as int), start, bmdt, shift);
    let n = p.len() as int;
    if i < n {
        let next = run_step(s, run_model(p, offset), i, st, shift);
        lemma_run_step(s, p, offset, i, st, shift, start, bmdt);
        lemma_sums_grow(p, i + 1, n);
        lemma_run_back(next, p, offset, i + 1, st, shift, start, bmdt);
        assert(s.samples.push(all[i]) + all.subrange(i + 1, n) =~= s.samples + all.subrange(i, n));
    } else {
        assert(s.samples + all.subrange(i, n) =~= s.samples);
    }
}

/// What a track fragment is read back as: the samples it was made of, and the decode time behind them.
pub open spec fn traf_result(f: FragModel, t: FragTrackModel, k: int, start: int, shift: i64) -> FragModel {
    let n = t.pending.len() as int;
    FragModel {
        samples: f.samples + written_samples(t.pending, low32(k), start, t.next_bmdt as int, shift),
        next_dts: f.next_dts.update(k, (t.next_bmdt + ticks(t.pending, n)) as i64),
        ..f
    }
}

/// Whether a track can be read back from a fragment that starts at `moof_start`, whose data for the track
/// starts at the given offset from there.
pub open spec fn track_fits(t: FragTrackModel, moof_start: u64, offset: i32) -> bool {
    let n = t.pending.len() as int;
    &&& n < 0x1_0000_0000
    &&& sizes_fit(t.pending)
    &&& 0 <= offset
    &&& moof_start + offset + data_len(t.pending, n) <= u64::MAX
    &&& t.next_bmdt + ticks(t.pending, n) <= i64::MAX
    &&& traf_payload(t, offset).len() + 8 < 0x1_0000_0000
}

/// Where the boxes of a track fragment stand in it.
proof fn lemma_traf_boxes(t: FragTrackModel, offset: i32)
    requires
        traf_payload(t, offset).len() + 8 < 0x1_0000_0000,
    ensures
        ({
            let b = traf_payload(t, offset);
            let p1 = tfhd_payload(t.track_id, defaults_for(t.pending));
            let p2 = tfdt_payload(t.next_bmdt);
            let p3 = trun_payload(t.pending, offset, defaults_for(t.pending));
            let n1 = 8 + p1.len() as int;
            let n2 = n1 + 8 + p2.len() as int;
            &&& box_at(b, 0, TFHD, p1)
            &&& box_at(b, n1, TFDT, p2)
            &&& box_at(b, n2, TRUN, p3)
            &&& b.len() == n2 + 8 + p3.len()
        }),
{
    reveal(traf_payload);
    let b = traf_payload(t, offset);
    let p1 = tfhd_payload(t.track_id, defaults_for(t.pending));
    let p2 = tfdt_payload(t.next_bmdt);
    let p3 = trun_payload(t.pending, offset, defaults_for(t.pending));
    let x1 = boxed(TFHD, p1);
    let x2 = boxed(TFDT, p2);
    let x3 = boxed(TRUN, p3);
    assert(b == x1 + x2 + x3);
    let n1 = x1.len() as int;
    let n2 = n1 + x2.len() as int;
    assert(b.subrange(0, n1) =~= x1);
    assert(b.subrange(n1, n2) =~= x2);
    assert(b.subrange(n2, b.len() as int) =~= x3);
}

/// What the boxes of a track fragment, but for its run, are read back as.
pub open spec fn scan_result(t: FragTrackModel, moof_start: u64, tracks: Seq<TrackModel>) -> TrafScan {
    let d = defaults_for(t.pending);
    let k = track_index(tracks, t.track_id);
    let trex = tracks[k].trex;
    TrafScan {
        state: TrafState {
            track_idx: k as usize,
            tfhd_flags: tfhd_flags(d),
            base_data_offset: moof_start,
            default_sample_duration: or_default(d.homogeneous_duration, trex.default_sample_duration),
            default_sample_size: or_default(d.homogeneous_size, trex.default_sample_size),
            default_sample_flags: or_default(d.homogeneous_flags, trex.default_sample_flags),
            base_media_decode_time: Some(s64(t.next_bmdt)),
        },
        tfhd_seen: true,
        ..no_scan()
    }
}

proof fn lemma_scan_back(t: FragTrackModel, offset: i32, moof_start: u64, tracks: Seq<TrackModel>)
    requires
        traf_payload(t, offset).len() + 8 < 0x1_0000_0000,
        track_index(tracks, t.track_id) < tracks.len() <= usize::MAX,
    ensures
        scan_from(traf_payload(t, offset), 0, no_scan(), moof_start, tracks) == (
            scan_result(t, moof_start, tracks),
            Ok::<(), Error>(()),
        ),
{
    let b = traf_payload(t, offset);
    let d = defaults_for(t.pending);
    let p1 = tfhd_payload(t.track_id, d);
    let p2 = tfdt_payload(t.next_bmdt);
    let p3 = trun_payload(t.pending, offset, defaults_for(t.pending));
    let n1 = 8 + p1.len() as int;
    let n2 = n1 + 8 + p2.len() as int;
    lemma_traf_boxes(t, offset);
    law_box_read_back(b, 0, TFHD, p1);
    law_box_read_back(b, n1, TFDT, p2);
    law_box_read_back(b, n2, TRUN, p3);
    lemma_tfhd_back(t.track_id, d, no_scan().state, moof_start, tracks);
    lemma_tfdt_back(t.next_bmdt);
    let s3 = scan_result(t, moof_start, tracks);
    let s1 = TrafScan { state: TrafState { base_media_decode_time: None, ..s3.state }, ..s3 };
    assert(scan_from(b, 0, no_scan(), moof_start, tracks) == scan_from(b, n1, s1, moof_start, tracks));
    assert(scan_from(b, n1, s1, moof_start, tracks) == scan_from(b, n2, s3, moof_start, tracks));
    assert(scan_from(b, n2, s3, moof_start, tracks) == scan_from(b, b.len() as int, s3, moof_start, tracks));
}

/// The run of a track fragment is met by a walk over it.
proof fn lemma_runs_walk(t: FragTrackModel, offset: i32, s: RunState, st: TrafState, shift: i64)
    requires
        traf_payload(t, offset).len() + 8 < 0x1_0000_0000,
        t.pending.len() < 0x1_0000_0000,
    ensures
        runs_from(traf_payload(t, offset), 0, s, st, shift) == (
            run_of(s, run_model(t.pending, offset), st, shift),
            Ok::<(), Error>(()),
        ),
{
    let b = traf_payload(t, offset);
    let p1 = tfhd_payload(t.track_id, defaults_for(t.pending));
    let p2 = tfdt_payload(t.next_bmdt);
    let p3 = trun_payload(t.pending, offset, defaults_for(t.pending));
    let n1 = 8 + p1.len() as int;
    let n2 = n1 + 8 + p2.len() as int;
    lemma_traf_boxes(t, offset);
    law_box_read_back(b, 0, TFHD, p1);
    law_box_read_back(b, n1, TFDT, p2);
    law_box_read_back(b, n2, TRUN, p3);
    lemma_trun_back(t.pending, offset);
    let end = run_of(s, run_model(t.pending, offset), st, shift);
    assert(runs_from(b, 0, s, st, shift) == runs_from(b, n1, s, st, shift));
    assert(runs_from(b, n1, s, st, shift) == runs_from(b, n2, s, st, shift));
    assert(runs_from(b, n2, s, st, shift) == runs_from(b, b.len() as int, end, st, shift));
}

/// What a track fragment without encryption and auxiliary information adds, from what its boxes and its
/// runs come to.
proof fn lemma_traf_parts(
    f: FragModel,
    b: Seq<u8>,
    moof_start: u64,
    tracks: Seq<TrackModel>,
    sequence: u32,
    scan: TrafScan,
    end: RunState,
    dts: i64,
)
    requires
        scan_from(b, 0, no_scan(), moof_start, tracks) == (scan, Ok::<(), Error>(())),
        scan.tfhd_seen,
        scan.senc_body is None,
        scan.saiz.len() == 0,
        scan.saio.len() == 0,
        scan.state.base_media_decode_time == Some(dts),
        runs_from(
            b,
            0,
            RunState { offset: scan.state.base_data_offset, dts, samples: f.samples },
            scan.state,
            leading_media_time(tracks[scan.state.track_idx as int].elst),
        ) == (end, Ok::<(), Error>(())),
    ensures
        traf_of(f, b, moof_start, tracks, sequence) == (
            FragModel {
                samples: end.samples,
                next_dts: f.next_dts.update(scan.state.track_idx as int, end.dts),
                ..f
            },
            Ok::<(), Error>(()),
        ),
{
    reveal(traf_of);
}

/// What the run of a track fragment comes to.
proof fn lemma_run_result(t: FragTrackModel, offset: i32, moof_start: u64, samples: Seq<SampleRef>, st: TrafState, shift: i64)
    requires
        track_fits(t, moof_start, offset),
        defaults_match(st, t.pending),
        st.base_data_offset == moof_start,
    ensures
        run_of(
            RunState { offset: moof_start, dts: t.next_bmdt as i64, samples },
            run_model(t.pending, offset),
            st,
            shift,
        ) == (RunState {
            offset: (moof_start + offset + data_len(t.pending, t.pending.len() as int)) as u64,
            dts: (t.next_bmdt + ticks(t.pending, t.pending.len() as int)) as i64,
            samples: samples + written_samples(
                t.pending,
                low32(st.track_idx as int),
                moof_start + offset,
                t.next_bmdt as int,
                shift,
            ),
        }),
{
    let p = t.pending;
    let n = p.len() as int;
    let start = moof_start + offset;
    let bmdt = t.next_bmdt as int;
    lemma_sums_grow(p, 0, n);
    let s0 = RunState { offset: moof_start, dts: t.next_bmdt as i64, samples };
    let s1 = RunState { offset: start as u64, ..s0 };
    lemma_run_back(s1, p, offset, 0, st, shift, start, bmdt);
    let all = written_samples(p, low32(st.track_idx as int), start, bmdt, shift);
    assert(all.subrange(0, n) =~= all);
}

/// A track fragment is read back as the samples it was made of.
pub proof fn law_traf_round_trip(
    f: FragModel,
    t: FragTrackModel,
    offset: i32,
    moof_start: u64,
    tracks: Seq<TrackModel>,
    sequence: u32,
)
    requires
        track_fits(t, moof_start, offset),
        track_index(tracks, t.track_id) < tracks.len() <= usize::MAX,
    ensures
        ({
            let k = track_index(tracks, t.track_id);
            traf_of(f, traf_payload(t, offset), moof_start, tracks, sequence) == (
                traf_result(f, t, k, moof_start + offset, leading_media_time(tracks[k].elst)),
                Ok::<(), Error>(()),
            )
        }),
{
    let k = track_index(tracks, t.track_id);
    let shift = leading_media_time(tracks[k].elst);
    lemma_track_index(tracks, t.track_id);
    lemma_scan_back(t, offset, moof_start, tracks);
    let scan = scan_result(t, moof_start, tracks);
    lemma_sums_grow(t.pending, 0, t.pending.len() as int);
    assert(s64(t.next_bmdt) == t.next_bmdt as i64);
    let s0 = RunState { offset: moof_start, dts: t.next_bmdt as i64, samples: f.samples };
    lemma_runs_walk(t, offset, s0, scan.state, shift);
    lemma_run_result(t, offset, moof_start, f.samples, scan.state, shift);
    lemma_traf_parts(
        f,
        traf_payload(t, offset),
        moof_start,
        tracks,
        sequence,
        scan,
        run_of(s0, run_model(t.pending, offset), scan.state, shift),
        t.next_bmdt as i64,
    );
}

/// How many bytes the samples of the tracks from the `i`th on have.
pub open spec fn data_from(tracks: Seq<FragTrackModel>, i: int) -> int
    decreases tracks.len() - i,
{
    if i >= tracks.len() {
        0
    } else {
        data_len(tracks[i].pending, tracks[i].pending.len() as int) + data_from(tracks, i + 1)
    }
}

/// What a movie fragment is read back as, track by track from the `i`th on. `start` is where in the file
/// the data of the `i`th track starts.
pub open spec fn moof_result(f: FragModel, tracks: Seq<FragTrackModel>, i: int, start: int, movie: Seq<TrackModel>) -> FragModel
    decreases tracks.len() - i,
{
    if i >= tracks.len() {
        f
    } else if tracks[i].pending.len() == 0 {
        moof_result(f, tracks, i + 1, start, movie)
    } else {
        moof_result(
            traf_result(f, tracks[i], i, start, leading_media_time(movie[i].elst)),
            tracks,
            i + 1,
            start + data_len(tracks[i].pending, tracks[i].pending.len() as int),
            movie,
        )
    }
}

/// Whether the tracks of a movie are those that are written, each with a number of its own.
pub open spec fn same_tracks(tracks: Seq<FragTrackModel>, movie: Seq<TrackModel>) -> bool {
    &&& tracks.len() == movie.len()
    &&& movie.len() <= usize::MAX
    &&& forall|i: int| 0 <= i < tracks.len() ==> track_index(movie, (#[trigger] tracks[i]).track_id) == i
}

/// Whether the samples of a track have sizes and times that the format can hold.
pub open spec fn samples_fit(t: FragTrackModel) -> bool {
    &&& t.pending.len() < 0x1_0000_0000
    &&& t.next_bmdt + ticks(t.pending, t.pending.len() as int) <= i64::MAX
}

/// Whether a fragment is small enough for the offsets in it, and does not go beyond the end of what a file
/// can hold.
pub open spec fn fragment_fits(seq: u32, tracks: Seq<FragTrackModel>, moof_start: u64) -> bool {
    &&& moof_len(seq, tracks) + 8 + data_from(tracks, 0) <= i32::MAX
    &&& moof_start + moof_len(seq, tracks) + 8 + data_from(tracks, 0) <= u64::MAX
    &&& forall|i: int| 0 <= i < tracks.len() ==> samples_fit(#[trigger] tracks[i])
}

proof fn lemma_data_from(tracks: Seq<FragTrackModel>, i: int)
    requires
        0 <= i,
    ensures
        data_from(tracks, i) >= 0,
    decreases tracks.len() - i,
{
    if i < tracks.len() {
        lemma_data_from(tracks, i + 1);
        lemma_sums_grow(tracks[i].pending, 0, tracks[i].pending.len() as int);
    }
}

/// What comes before the track fragments stays before them.
proof fn lemma_trafs_prefix(acc: Seq<u8>, tracks: Seq<FragTrackModel>, i: int, byte: int, size: Option<int>)
    ensures
        ({
            let b = trafs_from(acc, tracks, i, byte, size);
            &&& acc.len() <= b.len()
            &&& b.subrange(0, acc.len() as int) == acc
        }),
    decreases tracks.len() - i,
{
    let b = trafs_from(acc, tracks, i, byte, size);
    if i >= tracks.len() {
        assert(b.subrange(0, acc.len() as int) =~= acc);
    } else if tracks[i].pending.len() == 0 {
        lemma_trafs_prefix(acc, tracks, i + 1, byte, size);
    } else {
        let t = tracks[i];
        let next = acc + boxed(TRAF, traf_payload(t, data_offset(size, byte)));
        lemma_trafs_prefix(next, tracks, i + 1, byte + data_len(t.pending, t.pending.len() as int), size);
        assert(b.subrange(0, acc.len() as int) =~= b.subrange(0, next.len() as int).subrange(0, acc.len() as int));
        assert(next.subrange(0, acc.len() as int) =~= acc);
    }
}

/// The sizes of samples are at most as large as all data.
proof fn lemma_sizes(p: Seq<PendingModel>, n: int)
    requires
        0 <= n <= p.len(),
        data_len(p, n) < 0x1_0000_0000,
    ensures
        forall|j: int| 0 <= j < n ==> (#[trigger] p[j]).data.len() < 0x1_0000_0000,
    decreases n,
{
    if n > 0 {
        lemma_sums_grow(p, n - 1, n);
        lemma_sizes(p, n - 1);
    }
}

/// A walk over a movie fragment takes in one track fragment.
proof fn lemma_moof_one(b: Seq<u8>, pos: int, payload: Seq<u8>, s: MoofScan, moof_start: u64, movie: Seq<TrackModel>, f: FragModel)
    requires
        box_at(b, pos, TRAF, payload),
        traf_of(s.frag, payload, moof_start, movie, s.sequence) == (f, Ok::<(), Error>(())),
    ensures
        moof_from(b, pos, s, moof_start, movie) == moof_from(
            b,
            pos + 8 + payload.len(),
            MoofScan { frag: f, ..s },
            moof_start,
            movie,
        ),
{
    law_box_read_back(b, pos, TRAF, payload);
}

/// Where the first of the track fragments stands.
proof fn lemma_traf_place(acc: Seq<u8>, payload: Seq<u8>, tracks: Seq<FragTrackModel>, i: int, byte: int, size: Option<int>)
    requires
        trafs_from(acc + boxed(TRAF, payload), tracks, i, byte, size).len() <= i32::MAX,
    ensures
        box_at(trafs_from(acc + boxed(TRAF, payload), tracks, i, byte, size), acc.len() as int, TRAF, payload),
{
    let x = boxed(TRAF, payload);
    let next = acc + x;
    let b = trafs_from(next, tracks, i, byte, size);
    let pos = acc.len() as int;
    lemma_trafs_prefix(next, tracks, i, byte, size);
    assert(b.subrange(pos, pos + x.len()) =~= x) by {
        assert(b.subrange(pos, pos + x.len()) =~= b.subrange(0, next.len() as int).subrange(pos, pos + x.len() as int));
        assert(next.subrange(pos, pos + x.len() as int) =~= x);
    }
    assert(x.len() == 8 + payload.len());
}

/// A walk over a movie fragment meets the track fragments from the `i`th track on.
proof fn lemma_moof_walk(
    s: MoofScan,
    acc: Seq<u8>,
    tracks: Seq<FragTrackModel>,
    i: int,
    byte: int,
    size: int,
    moof_start: u64,
    movie: Seq<TrackModel>,
)
    requires
        0 <= i <= tracks.len(),
        0 <= byte,
        0 <= size,
        same_tracks(tracks, movie),
        forall|k: int| 0 <= k < tracks.len() ==> samples_fit(#[trigger] tracks[k]),
        size + 8 + byte + data_from(tracks, i) <= i32::MAX,
        moof_start + size + 8 + byte + data_from(tracks, i) <= u64::MAX,
        trafs_from(acc, tracks, i, byte, Some(size)).len() <= i32::MAX,
    ensures
        moof_from(trafs_from(acc, tracks, i, byte, Some(size)), acc.len() as int, s, moof_start, movie) == (
            MoofScan { frag: moof_result(s.frag, tracks, i, moof_start + size + 8 + byte, movie), ..s },
            Ok::<(), Error>(()),
        ),
    decreases tracks.len() - i,
{
    let b = trafs_from(acc, tracks, i, byte, Some(size));
    if i < tracks.len() {
        let t = tracks[i];
        let n = t.pending.len() as int;
        lemma_data_from(tracks, i + 1);
        lemma_sums_grow(t.pending, 0, n);
        if n == 0 {
            lemma_moof_walk(s, acc, tracks, i + 1, byte, size, moof_start, movie);
        } else {
            let offset = data_offset(Some(size), byte);
            let payload = traf_payload(t, offset);
            let next = acc + boxed(TRAF, payload);
            let byte2 = byte + data_len(t.pending, n);
            assert(offset == size + 8 + byte);
            lemma_traf_place(acc, payload, tracks, i + 1, byte2, Some(size));
            lemma_sizes(t.pending, n);
            assert(samples_fit(tracks[i]));
            assert(track_index(movie, tracks[i].track_id) == i);
            law_traf_round_trip(s.frag, t, offset, moof_start, movie, s.sequence);
            let f = traf_result(s.frag, t, i, moof_start + offset, leading_media_time(movie[i].elst));
            lemma_moof_one(b, acc.len() as int, payload, s, moof_start, movie, f);
            lemma_moof_walk(MoofScan { frag: f, ..s }, next, tracks, i + 1, byte2, size, moof_start, movie);
            assert(next.len() == acc.len() + 8 + payload.len());
        }
    }
}

/// A movie fragment is read back as the samples that it was made of: each with its size, times and flags,
/// and with the offset in the file at which its data stands behind the fragment. Nothing else is added.
pub proof fn law_moof_round_trip(
    f: FragModel,
    psshes: Seq<MoofPsshModel>,
    seq: u32,
    tracks: Seq<FragTrackModel>,
    moof_start: u64,
    movie: Seq<TrackModel>,
)
    requires
        same_tracks(tracks, movie),
        fragment_fits(seq, tracks, moof_start),
    ensures
        moof_bytes(seq, tracks).len() == moof_len(seq, tracks),
        moof_bytes(seq, tracks).subrange(8, moof_len(seq, tracks)) == moof_payload(
            seq,
            tracks,
            Some(moof_len(seq, tracks)),
        ),
        moof_of(f, psshes, moof_payload(seq, tracks, Some(moof_len(seq, tracks))), moof_start, movie) == (
            moof_result(f, tracks, 0, moof_start + moof_len(seq, tracks) + 8, movie),
            psshes,
            Ok::<(), Error>(()),
        ),
{
    let size = moof_len(seq, tracks);
    let b = moof_payload(seq, tracks, Some(size));
    law_moof_len(seq, tracks);
    assert(moof_bytes(seq, tracks).subrange(8, size) =~= b);
    let h = mfhd_payload(seq);
    let acc = boxed(MFHD, h);
    lemma_data_from(tracks, 0);
    lemma_trafs_prefix(acc, tracks, 0, 0, Some(size));
    assert(acc.len() == 16);
    assert(b.subrange(0, 16) == acc);
    assert(box_at(b, 0, MFHD, h));
    law_box_read_back(b, 0, MFHD, h);
    assert(h.subrange(4, 8) =~= enc32(seq));
    law_enc32_be32(seq, h, 4);
    let s0 = MoofScan { sequence: number_from(b, 0, 0), frag: f, psshes: Seq::empty() };
    let s1 = MoofScan { sequence: seq, ..s0 };
    assert(moof_from(b, 0, s0, moof_start, movie) == moof_from(b, 16, s1, moof_start, movie));
    lemma_moof_walk(s1, acc, tracks, 0, 0, size, moof_start, movie);
}

proof fn lemma_samples_data(acc: Seq<u8>, p: Seq<PendingModel>, i: int, j: int)
    requires
        0 <= i <= j < p.len(),
    ensures
        ({
            let b = samples_data(acc, p, i);
            let at = acc.len() + data_len(p, j) - data_len(p, i);
            &&& b.len() == acc.len() + data_len(p, p.len() as int) - data_len(p, i)
            &&& b.subrange(0, acc.len() as int) == acc
            &&& acc.len() <= at
            &&& at + p[j].data.len() <= b.len()
            &&& b.subrange(at, at + p[j].data.len()) == p[j].data
        }),
    decreases p.len() - i,
{
    let b = samples_data(acc, p, i);
    let next = acc + p[i].data;
    let n = p.len() as int;
    lemma_samples_len(next, p, i + 1);
    assert(b == samples_data(next, p, i + 1));
    assert(data_len(p, i + 1) == data_len(p, i) + p[i].data.len());
    assert(b.subrange(0, acc.len() as int) =~= acc) by {
        assert(b.subrange(0, acc.len() as int) =~= b.subrange(0, next.len() as int).subrange(0, acc.len() as int));
        assert(next.subrange(0, acc.len() as int) =~= acc);
    }
    if i == j {
        let at = acc.len() as int;
        assert(b.subrange(at, at + p[j].data.len()) =~= p[j].data) by {
            assert(b.subrange(at, at + p[j].data.len()) =~= b.subrange(0, next.len() as int).subrange(
                at,
                next.len() as int,
            ));
            assert(next.subrange(at, next.len() as int) =~= p[j].data);
        }
    } else {
        lemma_samples_data(next, p, i + 1, j);
    }
}

proof fn lemma_samples_len(acc: Seq<u8>, p: Seq<PendingModel>, i: int)
    requires
        0 <= i <= p.len(),
    ensures
        samples_data(acc, p, i).len() == acc.len() + data_len(p, p.len() as int) - data_len(p, i),
        acc.len() <= samples_data(acc, p, i).len(),
        samples_data(acc, p, i).subrange(0, acc.len() as int) == acc,
    decreases p.len() - i,
{
    let b = samples_data(acc, p, i);
    if i < p.len() {
        let next = acc + p[i].data;
        lemma_samples_len(next, p, i + 1);
        assert(b.subrange(0, acc.len() as int) =~= b.subrange(0, next.len() as int).subrange(0, acc.len() as int));
        assert(next.subrange(0, acc.len() as int) =~= acc);
    } else {
        assert(b.subrange(0, acc.len() as int) =~= acc);
    }
}

proof fn lemma_tracks_len(acc: Seq<u8>, tracks: Seq<FragTrackModel>, i: int)
    requires
        0 <= i <= tracks.len(),
    ensures
        tracks_data(acc, tracks, i).len() == acc.len() + data_from(tracks, i),
        acc.len() <= tracks_data(acc, tracks, i).len(),
        tracks_data(acc, tracks, i).subrange(0, acc.len() as int) == acc,
    decreases tracks.len() - i,
{
    let b = tracks_data(acc, tracks, i);
    if i < tracks.len() {
        let next = samples_data(acc, tracks[i].pending, 0);
        lemma_samples_len(acc, tracks[i].pending, 0);
        lemma_tracks_len(next, tracks, i + 1);
        assert(b.subrange(0, acc.len() as int) =~= b.subrange(0, next.len() as int).subrange(0, acc.len() as int));
    } else {
        assert(b.subrange(0, acc.len() as int) =~= acc);
    }
}

proof fn lemma_tracks_data(acc: Seq<u8>, tracks: Seq<FragTrackModel>, i: int, k: int, j: int)
    requires
        0 <= i <= k < tracks.len(),
        0 <= j < tracks[k].pending.len(),
    ensures
        ({
            let b = tracks_data(acc, tracks, i);
            let at = acc.len() + data_from(tracks, i) - data_from(tracks, k) + data_len(tracks[k].pending, j);
            &&& acc.len() <= at
            &&& at + tracks[k].pending[j].data.len() <= b.len()
            &&& b.subrange(at, at + tracks[k].pending[j].data.len()) == tracks[k].pending[j].data
        }),
    decreases tracks.len() - i,
{
    let b = tracks_data(acc, tracks, i);
    let p = tracks[i].pending;
    let next = samples_data(acc, p, 0);
    lemma_samples_len(acc, p, 0);
    lemma_tracks_len(next, tracks, i + 1);
    lemma_sums_grow(p, 0, p.len() as int);
    if i == k {
        lemma_samples_data(acc, p, 0, j);
        let at = acc.len() + data_len(p, j);
        let len = p[j].data.len();
        assert(b.subrange(at, at + len) =~= b.subrange(0, next.len() as int).subrange(at, at + len));
    } else {
        lemma_tracks_data(next, tracks, i + 1, k, j);
    }
}

/// In the data of a fragment, the data of each sample stands where the samples of the tracks before its
/// own, and those before it in its track, end.
pub proof fn law_data_place(tracks: Seq<FragTrackModel>, k: int, j: int)
    requires
        0 <= k < tracks.len(),
        0 <= j < tracks[k].pending.len(),
    ensures
        ({
            let b = tracks_data(Seq::empty(), tracks, 0);
            let at = data_from(tracks, 0) - data_from(tracks, k) + data_len(tracks[k].pending, j);
            &&& 0 <= at
            &&& at + tracks[k].pending[j].data.len() <= b.len()
            &&& b.subrange(at, at + tracks[k].pending[j].data.len()) == tracks[k].pending[j].data
        }),
{
    lemma_tracks_data(Seq::empty(), tracks, 0, k, j);
}

/// In a file that goes on with a fragment at `pre.len()`, the data of each sample stands at the offset with
/// which it is read back.
pub proof fn law_sample_data_in_file(pre: Seq<u8>, seq: u32, tracks: Seq<FragTrackModel>, k: int, j: int)
    requires
        0 <= k < tracks.len(),
        0 <= j < tracks[k].pending.len(),
    ensures
        ({
            let file = pre + moof_bytes(seq, tracks) + boxed(MDAT, tracks_data(Seq::empty(), tracks, 0));
            let start = pre.len() + moof_len(seq, tracks) + 8 + data_from(tracks, 0) - data_from(tracks, k);
            let at = start + data_len(tracks[k].pending, j);
            file.subrange(at, at + tracks[k].pending[j].data.len()) == tracks[k].pending[j].data
        }),
{
    law_data_place(tracks, k, j);
    law_moof_len(seq, tracks);
    let data = tracks_data(Seq::empty(), tracks, 0);
    let head = pre + moof_bytes(seq, tracks);
    let file = head + boxed(MDAT, data);
    let x = tracks[k].pending[j].data;
    let in_data = data_from(tracks, 0) - data_from(tracks, k) + data_len(tracks[k].pending, j);
    let at = head.len() + 8 + in_data;
    let y = boxed(MDAT, data);
    assert(y.subrange(8 + in_data, 8 + in_data + x.len()) =~= data.subrange(in_data, in_data + x.len()));
    assert(file.subrange(at, at + x.len()) =~= y.subrange(8 + in_data, 8 + in_data + x.len()));
}

/// The header of a box of a file is read back, with the place of its payload.
proof fn lemma_file_box(f: Seq<u8>, pos: int, code: u32, payload: Seq<u8>)
    requires
        box_at(f, pos, code, payload),
    ensures
        header_at(f, pos) matches Ok(h) && {
            &&& h.kind == code
            &&& h.header_len == 8
            &&& h.total_size is Some
            &&& file_end(f, pos + 8, h) == pos + 8 + payload.len()
            &&& file_holds(f, pos + 8, h)
            &&& f.subrange(pos + 8, pos + 8 + payload.len()) == payload
        },
{
    lemma_box_parts(f, pos, code, payload);
}

/// What the reading of a file makes of a box that was written: a file type box is noted, a movie box and a
/// movie fragment are kept, and what is neither read nor noted is passed over.
pub proof fn law_file_box(f: Seq<u8>, pos: int, code: u32, payload: Seq<u8>, top: TopModel)
    requires
        box_at(f, pos, code, payload),
        f.len() <= u64::MAX,
        code == FTYP || code == MOOV || code == MOOF || !wants_body(code),
    ensures
        file_from(f, pos, top) == file_from(
            f,
            pos + 8 + payload.len(),
            if code == FTYP {
                TopModel { saw_ftyp: true, ..top }
            } else if code == MOOV {
                TopModel { moov: Some(payload), ..top }
            } else if code == MOOF {
                TopModel { moofs: top.moofs.push(MoofModel { moof_start: pos as u64, body: payload }), ..top }
            } else {
                top
            },
        ),
{
    reveal(top_body);
    lemma_file_box(f, pos, code, payload);
}

/// Part of a file.
pub open spec fn part_at(f: Seq<u8>, pos: int, part: Seq<u8>) -> bool {
    &&& 0 <= pos
    &&& pos + part.len() <= f.len()
    &&& f.subrange(pos, pos + part.len()) == part
}

/// What a part of a file is made of stands in the file one behind the other.
pub proof fn lemma_part_of_part(f: Seq<u8>, pos: int, a: Seq<u8>, b: Seq<u8>)
    requires
        part_at(f, pos, a + b),
    ensures
        part_at(f, pos, a),
        part_at(f, pos + a.len(), b),
{
    let w = f.subrange(pos, pos + (a + b).len());
    assert(f.subrange(pos, pos + a.len()) =~= a) by {
        assert(f.subrange(pos, pos + a.len()) =~= w.subrange(0, a.len() as int));
        assert((a + b).subrange(0, a.len() as int) =~= a);
    }
    let q = pos + a.len();
    assert(f.subrange(q, q + b.len()) =~= b) by {
        assert(f.subrange(q, q + b.len()) =~= w.subrange(a.len() as int, a.len() + b.len() as int));
        assert((a + b).subrange(a.len() as int, a.len() + b.len() as int) =~= b);
    }
}

/// Whether the boxes of a fragment are small enough for their headers.
pub open spec fn fragment_boxes_fit(m: MuxModel, tracks: Seq<FragTrackModel>) -> bool {
    &&& moof_len(next_number(m.sequence_number), tracks) < 0x1_0000_0000
    &&& 8 + data_from(tracks, 0) < 0x1_0000_0000
    &&& segment_type(m).len() < 0x1_0000_0000
}

/// A fragment that stands in a file is read as a movie fragment: with its payload, and with the place at
/// which it starts, behind what the segment declares. Its data and that declaration are passed over.
pub proof fn law_fragment_in_file(f: Seq<u8>, pos: int, m: MuxModel, tracks: Seq<FragTrackModel>, top: TopModel)
    requires
        f.len() <= u64::MAX,
        part_at(f, pos, fragment_bytes(m, tracks)),
        fragment_boxes_fit(m, tracks),
    ensures
        ({
            let seq = next_number(m.sequence_number);
            let start = pos + segment_type(m).len();
            file_from(f, pos, top) == file_from(
                f,
                pos + fragment_bytes(m, tracks).len(),
                TopModel {
                    moofs: top.moofs.push(
                        MoofModel {
                            moof_start: start as u64,
                            body: moof_payload(seq, tracks, Some(moof_len(seq, tracks))),
                        },
                    ),
                    ..top
                },
            )
        }),
{
    let seq = next_number(m.sequence_number);
    let x0 = segment_type(m);
    let body = moof_payload(seq, tracks, Some(moof_len(seq, tracks)));
    let x1 = moof_bytes(seq, tracks);
    let data = tracks_data(Seq::empty(), tracks, 0);
    let x2 = boxed(MDAT, data);
    law_moof_len(seq, tracks);
    lemma_tracks_len(Seq::empty(), tracks, 0);
    lemma_part_of_part(f, pos, x0 + x1, x2);
    lemma_part_of_part(f, pos, x0, x1);
    let p1 = pos + x0.len();
    let p2 = p1 + x1.len();
    if let Some(b) = m.styp {
        let payload = brand_payload(b, 0);
        assert(x0.len() == 8 + payload.len());
        law_file_box(f, pos, STYP, payload, top);
    }
    assert(box_at(f, p1, MOOF, body));
    law_file_box(f, p1, MOOF, body, top);
    let top2 = TopModel { moofs: top.moofs.push(MoofModel { moof_start: p1 as u64, body }), ..top };
    assert(box_at(f, p2, MDAT, data));
    law_file_box(f, p2, MDAT, data, top2);
}

/// The initialization segment that starts a file is read as its file type and its movie.
pub proof fn law_header_in_file(f: Seq<u8>, m: MuxModel)
    requires
        f.len() <= u64::MAX,
        !m.header_written,
        part_at(f, 0, header_of(m).1->Ok_0),
        ftyp_bytes(m.brand).len() < 0x1_0000_0000,
        init_moov_bytes(m.mvhd, m.tracks).len() < 0x1_0000_0000,
    ensures
        file_from(f, 0, TopModel::blank()) == file_from(
            f,
            header_of(m).1->Ok_0.len() as int,
            TopModel {
                saw_ftyp: true,
                moov: Some(
                    init_moov_bytes(m.mvhd, m.tracks).subrange(8, init_moov_bytes(m.mvhd, m.tracks).len() as int),
                ),
                ..TopModel::blank()
            },
        ),
{
    let x1 = ftyp_bytes(m.brand);
    let x2 = init_moov_bytes(m.mvhd, m.tracks);
    let b1 = brand_payload(m.brand, if m.brand.preset == BrandPreset::Mp4 { 0x200 } else { 0 });
    let b2 = traks_from(Seq::<u8>::empty() + m.mvhd, m.tracks, 0) + mvex_bytes(m.tracks);
    lemma_part_of_part(f, 0, x1, x2);
    assert(x1.len() == 8 + b1.len());
    assert(x2.len() == 8 + b2.len());
    assert(box_at(f, 0, FTYP, b1));
    law_file_box(f, 0, FTYP, b1, TopModel::blank());
    let top = TopModel { saw_ftyp: true, ..TopModel::blank() };
    assert(box_at(f, x1.len() as int, MOOV, b2));
    law_file_box(f, x1.len() as int, MOOV, b2, top);
    assert(x2.subrange(8, x2.len() as int) =~= b2);
}

/// The defaults of a track are read back.
pub proof fn law_trex_round_trip(t: FragTrackModel, movie: Seq<TrackModel>)
    requires
        track_index(movie, t.track_id) < movie.len(),
    ensures
        ({
            let k = track_index(movie, t.track_id);
            trex_of(movie, trex_payload(t)) == (
                movie.update(
                    k,
                    TrackModel {
                        trex: TrexDefaults {
                            default_sample_description_index: 1,
                            default_sample_duration: t.trex_default_sample_duration,
                            default_sample_size: t.trex_default_sample_size,
                            default_sample_flags: t.trex_default_sample_flags,
                        },
                        ..movie[k]
                    },
                ),
                Ok::<(), Error>(()),
            )
        }),
{
    let b = trex_payload(t);
    assert(b.subrange(4, 8) =~= enc32(t.track_id));
    assert(b.subrange(8, 12) =~= enc32(1));
    assert(b.subrange(12, 16) =~= enc32(t.trex_default_sample_duration));
    assert(b.subrange(16, 20) =~= enc32(t.trex_default_sample_size));
    assert(b.subrange(20, 24) =~= enc32(t.trex_default_sample_flags));
    law_enc32_be32(t.track_id, b, 4);
    law_enc32_be32(1, b, 8);
    law_enc32_be32(t.trex_default_sample_duration, b, 12);
    law_enc32_be32(t.trex_default_sample_size, b, 16);
    law_enc32_be32(t.trex_default_sample_flags, b, 20);
}

}
