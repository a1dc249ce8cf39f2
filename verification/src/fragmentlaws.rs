//! What a track fragment means: where each of its samples is, and when it is decoded and shown.
use vstd::prelude::*;
use crate::boxes::{boxed, child_at, header_at, next_pos, walk, Child};
use crate::bytes::{enc24, enc64};
use crate::childlaws::{box_list, each_part, law_walk_in_order, lemma_first_part, part_child, parts_fit, Part};
use crate::error::Error;
use crate::fragment::{
    no_scan, or_default, run_from, run_of, run_step, runs_from, runs_step, scan_from, scan_step, tfhd_of, traf_of,
    trun_of, FragModel, RunState, TrafScan, TrafState, TrunModel,
};
use crate::kinds::{TFDT, TFHD, TRUN};
use crate::layoutlaws::{
    announces, bit, law_tfdt_layout, law_tfhd_layout, law_trun_layout, tfhd_layout, trun_layout, RunFields,
};
use crate::numbers::wrap_u64;
use crate::samples::SampleRef;
use crate::tablelaws::{lemma_media_starts, media_starts};
use crate::track::TrackModel;
use crate::trak::leading_media_time;

verus! {

/// The track runs among the children from byte `pos` on, one after the other.
pub open spec fn runs_in(b: Seq<u8>, pos: int) -> Seq<TrunModel>
    decreases b.len() - pos,
{
    if pos >= b.len() {
        Seq::empty()
    } else {
        match header_at(b, pos) {
            Err(_) => Seq::empty(),
            Ok(h) => {
                let c = child_at(b, pos, h);
                let rest = if next_pos(b, pos, h) > pos { runs_in(b, next_pos(b, pos, h)) } else { Seq::empty() };
                if c.kind == TRUN && c.whole && trun_of(c.data) is Ok {
                    seq![trun_of(c.data)->Ok_0] + rest
                } else {
                    rest
                }
            },
        }
    }
}

/// How many samples the first `r` runs have.
pub open spec fn rows_before(runs: Seq<TrunModel>, r: int) -> int
    decreases r,
{
    if r <= 0 { 0 } else { rows_before(runs, r - 1) + runs[r - 1].samples.len() }
}

/// Whether a sample has what its row in a run gives, and for what that leaves out the default: the size, the
/// duration, how much later it is shown than decoded, and whether it is a keyframe. The first row takes the
/// flags for the first sample, where there are any.
pub open spec fn row_shown(x: SampleRef, run: TrunModel, j: int, st: TrafState) -> bool {
    let row = run.samples[j];
    let flags = if row.flags is Some {
        row.flags->Some_0
    } else if j == 0 && run.first_sample_flags is Some {
        run.first_sample_flags->Some_0
    } else {
        st.default_sample_flags
    };
    &&& x.track_idx == st.track_idx
    &&& x.size == (if row.size is Some { row.size->Some_0 } else { st.default_sample_size })
    &&& x.duration == (if row.duration is Some { row.duration->Some_0 } else { st.default_sample_duration })
    &&& x.pts - x.dts == (if row.composition_time_offset is Some { row.composition_time_offset->Some_0 as int } else { 0 })
    &&& x.keyframe <==> flags as int / 0x1_0000 % 2 == 0
}

/// Whether the `j`th sample of the `r`th run, which is the `i`th of `out`, is in its place. The first of a run
/// that gives an offset is at that offset from the base, whatever came before; every other one is behind the
/// one before it, and the first of all at the base.
pub open spec fn row_placed(out: Seq<SampleRef>, i: int, runs: Seq<TrunModel>, r: int, j: int, base: u64) -> bool {
    let x = out[i];
    let d = runs[r].data_offset;
    if j == 0 && d is Some {
        0 <= base + d->Some_0 <= u64::MAX ==> x.offset == base + d->Some_0
    } else if j == 0 && r == 0 {
        x.offset == base
    } else if j > 0 || runs[r - 1].samples.len() > 0 {
        out[i - 1].offset + out[i - 1].size <= u64::MAX ==> x.offset == out[i - 1].offset + out[i - 1].size
    } else {
        true
    }
}

/// Whether the `j`th sample of the `r`th run is what the run says. The first of all, which is the `n0`th of
/// `out`, is decoded at `time`, and every other one when the one before it ends.
pub open spec fn sample_shown(
    out: Seq<SampleRef>,
    n0: int,
    runs: Seq<TrunModel>,
    r: int,
    j: int,
    st: TrafState,
    time: int,
) -> bool {
    let i = n0 + rows_before(runs, r) + j;
    &&& i < out.len()
    &&& row_shown(out[i], runs[r], j, st)
    &&& row_placed(out, i, runs, r, j, st.base_data_offset)
    &&& out[i].dts == (if i == n0 { time } else { out[i - 1].dts + out[i - 1].duration })
}

/// Whether the samples of the first `n` runs are what the runs say.
pub open spec fn runs_shown(
    out: Seq<SampleRef>,
    n0: int,
    runs: Seq<TrunModel>,
    n: int,
    st: TrafState,
    time: int,
) -> bool {
    forall|r: int, j: int|
        0 <= r < n && 0 <= j < runs[r].samples.len() ==> #[trigger] sample_shown(out, n0, runs, r, j, st, time)
}

/// What the first `n` runs add.
spec fn after_runs(s: RunState, runs: Seq<TrunModel>, n: int, st: TrafState, shift: i64) -> RunState
    decreases n,
{
    if n <= 0 { s } else { run_of(after_runs(s, runs, n - 1, st, shift), runs[n - 1], st, shift) }
}

proof fn lemma_rows_before_grow(runs: Seq<TrunModel>, a: int, b: int)
    requires
        0 <= a <= b,
    ensures
        0 <= rows_before(runs, a) <= rows_before(runs, b),
    decreases b,
{
    if a < b {
        lemma_rows_before_grow(runs, a, b - 1);
    } else if a > 0 {
        lemma_rows_before_grow(runs, a - 1, b - 1);
    }
}

/// What a run adds behind its first `j` rows.
spec fn after_rows(s: RunState, run: TrunModel, j: int, st: TrafState, shift: i64) -> RunState
    decreases j,
{
    if j <= 0 { s } else { run_step(after_rows(s, run, j - 1, st, shift), run, j - 1, st, shift) }
}

proof fn lemma_after_rows(s: RunState, run: TrunModel, j: int, st: TrafState, shift: i64)
    requires
        0 <= j <= run.samples.len(),
    ensures
        run_from(s, run, 0, st, shift) == run_from(after_rows(s, run, j, st, shift), run, j, st, shift),
    decreases j,
{
    if j > 0 {
        lemma_after_rows(s, run, j - 1, st, shift);
    }
}

/// Times below 2 to the power 61, and below 2 to the power 29 samples.
spec fn small(time: int, shift: i64, count: int) -> bool {
    &&& -0x2000_0000_0000_0000 <= time <= 0x2000_0000_0000_0000 + count * 0x1_0000_0000
    &&& -0x2000_0000_0000_0000 <= shift <= 0x2000_0000_0000_0000
    &&& 0 <= count <= 0x2000_0000
}

/// What the `j`th row of a run has added.
spec fn row_done(s: RunState, t: RunState, run: TrunModel, j: int, st: TrafState, shift: i64, start: u64) -> bool {
    let i = s.samples.len() + j;
    &&& row_shown(t.samples[i], run, j, st)
    &&& j == 0 ==> t.samples[i].offset == start && t.samples[i].dts == s.dts - shift
    &&& j > 0 ==> t.samples[i].dts == t.samples[i - 1].dts + t.samples[i - 1].duration
    &&& j > 0 && t.samples[i - 1].offset + t.samples[i - 1].size <= u64::MAX ==> t.samples[i].offset == t.samples[i
        - 1].offset + t.samples[i - 1].size
}

/// What `k` rows of a run have added to samples that had come to `out`, of which the first is the `n0`th.
spec fn rows_done(
    s: RunState,
    t: RunState,
    n0: int,
    run: TrunModel,
    k: int,
    st: TrafState,
    shift: i64,
    start: u64,
) -> bool {
    &&& t.samples.len() == s.samples.len() + k
    &&& forall|i: int| 0 <= i < s.samples.len() ==> #[trigger] t.samples[i] == s.samples[i]
    &&& small(t.dts as int, shift, t.samples.len() - n0)
    &&& k == 0 ==> t.offset == start && t.dts == s.dts
    &&& k > 0 ==> {
        let x = t.samples[t.samples.len() - 1];
        &&& t.dts == x.dts + shift + x.duration
        &&& x.offset + x.size <= u64::MAX ==> t.offset == x.offset + x.size
    }
    &&& forall|j: int| 0 <= j < k ==> #[trigger] row_done(s, t, run, j, st, shift, start)
}

proof fn lemma_rows_done(s: RunState, n0: int, run: TrunModel, k: int, st: TrafState, shift: i64, start: u64)
    requires
        0 <= k <= run.samples.len(),
        0 <= n0 <= s.samples.len(),
        st.track_idx <= u32::MAX,
        small(s.dts as int, shift, s.samples.len() - n0),
        s.samples.len() - n0 + run.samples.len() <= 0x2000_0000,
    ensures
        rows_done(s, after_rows(RunState { offset: start, ..s }, run, k, st, shift), n0, run, k, st, shift, start),
    decreases k,
{
    let s0 = RunState { offset: start, ..s };
    if k > 0 {
        lemma_rows_done(s, n0, run, k - 1, st, shift, start);
        let t0 = after_rows(s0, run, k - 1, st, shift);
        let t = after_rows(s0, run, k, st, shift);
        assert(t == run_step(t0, run, k - 1, st, shift));
        let n = s.samples.len() as int;
        assert forall|j: int| 0 <= j < k implies #[trigger] row_done(s, t, run, j, st, shift, start) by {
            let i = n + j;
            if j < k - 1 {
                assert(row_done(s, t0, run, j, st, shift, start));
                assert(t.samples[i] == t0.samples[i]);
                if j > 0 {
                    assert(t.samples[i - 1] == t0.samples[i - 1]);
                }
            } else {
                let x = t.samples[i];
                assert(x == t.samples.last());
                assert(row_shown(x, run, j, st));
                if j > 0 {
                    assert(t.samples[i - 1] == t0.samples[i - 1]);
                    assert(t0.samples[i - 1] == t0.samples.last());
                }
            }
        }
        assert forall|i: int| 0 <= i < n implies #[trigger] t.samples[i] == s.samples[i] by {
            assert(t.samples[i] == t0.samples[i]);
        }
        let x = t.samples[t.samples.len() - 1];
        assert(x == t.samples.last());
        assert(x.dts == t0.dts - shift);
        assert(t.dts == t0.dts + x.duration);
        assert(small(t.dts as int, shift, t.samples.len() - n0));
        assert(x.offset + x.size <= u64::MAX ==> t.offset == x.offset + x.size);
    }
}

proof fn lemma_run_done(s: RunState, n0: int, run: TrunModel, st: TrafState, shift: i64)
    requires
        0 <= n0 <= s.samples.len(),
        st.track_idx <= u32::MAX,
        small(s.dts as int, shift, s.samples.len() - n0),
        s.samples.len() - n0 + run.samples.len() <= 0x2000_0000,
    ensures
        ({
            let t = run_of(s, run, st, shift);
            exists|start: u64|
                {
                    &&& run.data_offset is Some && 0 <= st.base_data_offset + run.data_offset->Some_0 <= u64::MAX ==> start
                        == st.base_data_offset + run.data_offset->Some_0
                    &&& run.data_offset is None ==> start == s.offset
                    &&& #[trigger] rows_done(s, t, n0, run, run.samples.len() as int, st, shift, start)
                }
        }),
{
    let n = run.samples.len() as int;
    let start = match run.data_offset {
        Some(d) => wrap_u64(st.base_data_offset + d),
        None => s.offset,
    };
    let s0 = RunState { offset: start, ..s };
    let t = after_rows(s0, run, n, st, shift);
    lemma_rows_done(s, n0, run, n, st, shift, start);
    lemma_after_rows(s0, run, n, st, shift);
    assert(run_of(s, run, st, shift) == t);
    assert(rows_done(s, run_of(s, run, st, shift), n0, run, n, st, shift, start));
}

/// What the first `n` runs have come to.
spec fn runs_done(s: RunState, t: RunState, runs: Seq<TrunModel>, n: int, st: TrafState, shift: i64) -> bool {
    let n0 = s.samples.len() as int;
    &&& t.samples.len() == n0 + rows_before(runs, n)
    &&& forall|i: int| 0 <= i < n0 ==> #[trigger] t.samples[i] == s.samples[i]
    &&& small(t.dts as int, shift, t.samples.len() - n0)
    &&& t.samples.len() == n0 ==> t.dts == s.dts
    &&& t.samples.len() > n0 ==> ({
        let x = t.samples[t.samples.len() - 1];
        t.dts == x.dts + shift + x.duration
    })
    &&& n == 0 ==> t.offset == s.offset
    &&& n > 0 && runs[n - 1].samples.len() > 0 ==> ({
        let x = t.samples[t.samples.len() - 1];
        x.offset + x.size <= u64::MAX ==> t.offset == x.offset + x.size
    })
    &&& runs_shown(t.samples, n0, runs, n, st, s.dts - shift)
}

proof fn lemma_runs_done(s: RunState, runs: Seq<TrunModel>, n: int, st: TrafState, shift: i64)
    requires
        0 <= n <= runs.len(),
        st.track_idx <= u32::MAX,
        s.offset == st.base_data_offset,
        small(s.dts as int, shift, 0),
        rows_before(runs, runs.len() as int) <= 0x2000_0000,
    ensures
        runs_done(s, after_runs(s, runs, n, st, shift), runs, n, st, shift),
    decreases n,
{
    if n > 0 {
        lemma_runs_done(s, runs, n - 1, st, shift);
        lemma_rows_before_grow(runs, n, runs.len() as int);
        lemma_rows_before_grow(runs, 0, n - 1);
        let n0 = s.samples.len() as int;
        let t0 = after_runs(s, runs, n - 1, st, shift);
        let t = after_runs(s, runs, n, st, shift);
        let run = runs[n - 1];
        let k = run.samples.len() as int;
        lemma_run_done(t0, n0, run, st, shift);
        let start = choose|start: u64|
            {
                &&& run.data_offset is Some && 0 <= st.base_data_offset + run.data_offset->Some_0 <= u64::MAX ==> start
                    == st.base_data_offset + run.data_offset->Some_0
                &&& run.data_offset is None ==> start == t0.offset
                &&& #[trigger] rows_done(t0, t, n0, run, k, st, shift, start)
            };
        let m = t0.samples.len() as int;
        assert forall|i: int| 0 <= i < n0 implies #[trigger] t.samples[i] == s.samples[i] by {
            assert(t.samples[i] == t0.samples[i]);
        }
        let time = s.dts - shift;
        assert forall|r: int, j: int|
            0 <= r < n && 0 <= j < runs[r].samples.len() implies #[trigger] sample_shown(
            t.samples,
            n0,
            runs,
            r,
            j,
            st,
            time,
        ) by {
            let i = n0 + rows_before(runs, r) + j;
            lemma_rows_before_grow(runs, 0, r);
            if r < n - 1 {
                assert(sample_shown(t0.samples, n0, runs, r, j, st, time));
                lemma_rows_before_grow(runs, r + 1, n - 1);
                assert(i < m);
                assert(t.samples[i] == t0.samples[i]);
                if i > n0 {
                    assert(t.samples[i - 1] == t0.samples[i - 1]);
                }
                if r > 0 {
                    lemma_rows_before_grow(runs, 0, r - 1);
                }
                assert(row_placed(t.samples, i, runs, r, j, st.base_data_offset));
            } else {
                assert(i == m + j);
                assert(row_done(t0, t, run, j, st, shift, start));
                assert(row_shown(t.samples[i], runs[r], j, st));
                if j == 0 && i > n0 {
                    assert(t.samples[i - 1] == t0.samples[m - 1]);
                }
                assert(t.samples[i].dts == (if i == n0 { time } else { t.samples[i - 1].dts + t.samples[i - 1].duration }));
                if j == 0 && r > 0 && runs[r - 1].samples.len() > 0 {
                    lemma_rows_before_grow(runs, 0, r - 1);
                    assert(i > n0);
                }
                assert(row_placed(t.samples, i, runs, r, j, st.base_data_offset));
            }
        }
        if k == 0 && m > n0 {
            assert(t.samples[m - 1] == t0.samples[m - 1]);
        }
    }
}

proof fn lemma_runs_rest(runs: Seq<TrunModel>, run: TrunModel, s: RunState, n: int, st: TrafState, shift: i64)
    requires
        0 <= n <= runs.len(),
    ensures
        after_runs(s, seq![run] + runs, n + 1, st, shift) == after_runs(run_of(s, run, st, shift), runs, n, st, shift),
    decreases n,
{
    let all = seq![run] + runs;
    if n > 0 {
        lemma_runs_rest(runs, run, s, n - 1, st, shift);
        assert(all[n] == runs[n - 1]);
    } else {
        assert(all[0] == run);
        assert(after_runs(s, all, 0, st, shift) == s);
        assert(after_runs(s, all, 1, st, shift) == run_of(s, run, st, shift));
    }
}

/// A walk over the runs of a track fragment takes one after the other.
proof fn lemma_walk_runs(b: Seq<u8>, pos: int, s: RunState, st: TrafState, shift: i64)
    requires
        runs_from(b, pos, s, st, shift).1 is Ok,
    ensures
        runs_from(b, pos, s, st, shift).0 == after_runs(s, runs_in(b, pos), runs_in(b, pos).len() as int, st, shift),
    decreases b.len() - pos,
{
    let step = |s: RunState, c: Child| runs_step(s, c, st, shift);
    assert(runs_from(b, pos, s, st, shift) == walk(b, pos, s, step));
    if pos < b.len() {
        if let Ok(h) = header_at(b, pos) {
            let c = child_at(b, pos, h);
            let (s2, r) = runs_step(s, c, st, shift);
            let next = next_pos(b, pos, h);
            let rest = if next > pos { runs_in(b, next) } else { Seq::empty() };
            assert(step(s, c) == runs_step(s, c, st, shift));
            if next > pos {
                assert(runs_from(b, next, s2, st, shift) == walk(b, next, s2, step));
                lemma_walk_runs(b, next, s2, st, shift);
            }
            if c.kind == TRUN {
                let run = trun_of(c.data)->Ok_0;
                lemma_runs_rest(rest, run, s, rest.len() as int, st, shift);
                assert(runs_in(b, pos) == seq![run] + rest);
            } else {
                assert(runs_in(b, pos) == rest);
            }
        }
    }
}

/// The samples that a track fragment adds are those of its runs, one after the other, behind what was there.
/// Each has what its row gives or else the default. A run that gives an offset starts at that offset from the
/// base, wherever it stands among the runs; samples are otherwise one behind the other. The first is decoded
/// at the time that the track fragment gives, or else where its track has come to, and every other one when
/// the one before it ends; the time at which the media starts is taken off.
pub proof fn law_traf_samples(
    f: FragModel,
    b: Seq<u8>,
    moof_start: u64,
    tracks: Seq<TrackModel>,
    sequence: u32,
    shift: i64,
)
    requires
        traf_of(f, b, moof_start, tracks, sequence).1 is Ok,
        ({
            let st = scan_from(b, 0, no_scan(), moof_start, tracks).0.state;
            let time = if st.base_media_decode_time is Some {
                st.base_media_decode_time->Some_0
            } else {
                f.next_dts[st.track_idx as int]
            };
            &&& st.track_idx < tracks.len()
            &&& tracks.len() <= f.next_dts.len()
            &&& st.track_idx <= u32::MAX
            &&& media_starts(tracks[st.track_idx as int].elst, shift)
            &&& -0x2000_0000_0000_0000 <= time <= 0x2000_0000_0000_0000
            &&& -0x2000_0000_0000_0000 <= shift <= 0x2000_0000_0000_0000
        }),
        rows_before(runs_in(b, 0), runs_in(b, 0).len() as int) <= 0x2000_0000,
    ensures
        ({
            let runs = runs_in(b, 0);
            let f2 = traf_of(f, b, moof_start, tracks, sequence).0;
            let st = scan_from(b, 0, no_scan(), moof_start, tracks).0.state;
            let k = st.track_idx as int;
            let n0 = f.samples.len() as int;
            let time = if st.base_media_decode_time is Some { st.base_media_decode_time->Some_0 } else { f.next_dts[k] };
            &&& f2.samples.len() == n0 + rows_before(runs, runs.len() as int)
            &&& f2.samples.subrange(0, n0) == f.samples
            &&& runs_shown(f2.samples, n0, runs, runs.len() as int, st, time - shift)
            &&& f2.next_dts.len() == f.next_dts.len()
            &&& f2.next_dts[k] == (if f2.samples.len() == n0 {
                time as int
            } else {
                f2.samples.last().dts + shift + f2.samples.last().duration
            })
            &&& forall|i: int| 0 <= i < f.next_dts.len() && i != k ==> #[trigger] f2.next_dts[i] == f.next_dts[i]
        }),
{
    reveal(traf_of);
    let st = scan_from(b, 0, no_scan(), moof_start, tracks).0.state;
    let k = st.track_idx as int;
    let runs = runs_in(b, 0);
    lemma_media_starts(tracks[k].elst, shift);
    let s = RunState {
        offset: st.base_data_offset,
        dts: or_default(st.base_media_decode_time, f.next_dts[k]),
        samples: f.samples,
    };
    lemma_walk_runs(b, 0, s, st, shift);
    lemma_runs_done(s, runs, runs.len() as int, st, shift);
    let t = after_runs(s, runs, runs.len() as int, st, shift);
    assert(t.samples.subrange(0, f.samples.len() as int) =~= f.samples);
    assert(t.samples.len() > 0 ==> t.samples.last() == t.samples[t.samples.len() - 1]);
}

/// The boxes of runs, the `i`th of version `v[i]` and with flags `flags[i]`.
pub open spec fn run_parts(v: Seq<u8>, flags: Seq<u32>, runs: Seq<TrunModel>) -> Seq<Part> {
    Seq::new(runs.len(), |i: int| (TRUN, trun_layout(v[i], flags[i], runs[i])))
}

/// The boxes of a track fragment: its header, its decode time where it gives one, and its runs.
pub open spec fn traf_parts(
    tfhd: Seq<u8>,
    time: Option<u64>,
    v: Seq<u8>,
    flags: Seq<u32>,
    runs: Seq<TrunModel>,
) -> Seq<Part> {
    seq![(TFHD, tfhd)] + (match time {
        Some(t) => seq![(TFDT, seq![1u8] + enc24(0) + enc64(t))],
        None => Seq::empty(),
    }) + run_parts(v, flags, runs)
}

/// Whether the flags of each run announce what it has.
pub open spec fn runs_announced(v: Seq<u8>, flags: Seq<u32>, runs: Seq<TrunModel>, fields: Seq<RunFields>) -> bool {
    &&& v.len() == runs.len()
    &&& flags.len() == runs.len()
    &&& fields.len() == runs.len()
    &&& forall|i: int| 0 <= i < runs.len() ==> announces(flags[i], #[trigger] runs[i], fields[i])
}

/// Boxes that a scan passes over leave what it has found.
proof fn lemma_scan_runs(parts: Seq<Part>, s: TrafScan, moof_start: u64, tracks: Seq<TrackModel>)
    requires
        forall|i: int| 0 <= i < parts.len() ==> (#[trigger] parts[i]).0 == TRUN,
    ensures
        each_part(parts, s, |s: TrafScan, c: Child| scan_step(s, c, moof_start, tracks)) == (s, Ok::<(), Error>(())),
    decreases parts.len(),
{
    if parts.len() > 0 {
        let rest = parts.drop_first();
        assert(parts[0].0 == TRUN);
        assert forall|i: int| 0 <= i < rest.len() implies (#[trigger] rest[i]).0 == TRUN by {
            assert(rest[i] == parts[i + 1]);
        }
        lemma_scan_runs(rest, s, moof_start, tracks);
    }
}

/// Which runs there are among boxes.
spec fn part_runs(parts: Seq<Part>) -> Seq<TrunModel>
    decreases parts.len(),
{
    if parts.len() == 0 {
        Seq::empty()
    } else if parts[0].0 == TRUN && trun_of(parts[0].1) is Ok {
        seq![trun_of(parts[0].1)->Ok_0] + part_runs(parts.drop_first())
    } else {
        part_runs(parts.drop_first())
    }
}

proof fn lemma_runs_among(pre: Seq<u8>, parts: Seq<Part>)
    requires
        parts_fit(parts),
    ensures
        runs_in(pre + box_list(parts), pre.len() as int) == part_runs(parts),
    decreases parts.len(),
{
    if parts.len() > 0 {
        lemma_first_part(pre, parts);
        lemma_runs_among(pre + boxed(parts[0].0, parts[0].1), parts.drop_first());
    } else {
        assert(pre + box_list(parts) =~= pre);
    }
}

proof fn lemma_part_runs(v: Seq<u8>, flags: Seq<u32>, runs: Seq<TrunModel>, fields: Seq<RunFields>)
    requires
        runs_announced(v, flags, runs, fields),
    ensures
        part_runs(run_parts(v, flags, runs)) == runs,
    decreases runs.len(),
{
    let parts = run_parts(v, flags, runs);
    if runs.len() > 0 {
        assert(announces(flags[0], runs[0], fields[0]));
        law_trun_layout(v[0], flags[0], runs[0], fields[0]);
        let (v2, f2, r2, d2) = (v.drop_first(), flags.drop_first(), runs.drop_first(), fields.drop_first());
        assert(parts.drop_first() =~= run_parts(v2, f2, r2));
        assert forall|i: int| 0 <= i < r2.len() implies announces(f2[i], #[trigger] r2[i], d2[i]) by {
            assert(announces(flags[i + 1], runs[i + 1], fields[i + 1]));
        }
        lemma_part_runs(v2, f2, r2, d2);
        assert(seq![runs[0]] + r2 =~= runs);
    } else {
        assert(parts.len() == 0);
        assert(part_runs(parts) =~= runs);
    }
}

/// Boxes of which every run can be read are walked over.
proof fn lemma_runs_walk(parts: Seq<Part>, s: RunState, st: TrafState, shift: i64)
    requires
        forall|i: int| 0 <= i < parts.len() ==> (#[trigger] parts[i]).0 != TRUN || trun_of(parts[i].1) is Ok,
    ensures
        each_part(parts, s, |s: RunState, c: Child| runs_step(s, c, st, shift)).1 is Ok,
    decreases parts.len(),
{
    if parts.len() > 0 {
        let rest = parts.drop_first();
        assert(parts[0].0 != TRUN || trun_of(parts[0].1) is Ok);
        assert forall|i: int| 0 <= i < rest.len() implies (#[trigger] rest[i]).0 != TRUN || trun_of(rest[i].1) is Ok by {
            assert(rest[i] == parts[i + 1]);
        }
        let c = part_child(parts[0]);
        lemma_runs_walk(rest, runs_step(s, c, st, shift).0, st, shift);
    }
}

proof fn lemma_traf_parts_fit(h: Seq<u8>, time: Option<u64>, v: Seq<u8>, flags: Seq<u32>, runs: Seq<TrunModel>)
    requires
        h.len() <= 40,
        parts_fit(run_parts(v, flags, runs)),
    ensures
        parts_fit(traf_parts(h, time, v, flags, runs)),
{
    let parts = traf_parts(h, time, v, flags, runs);
    let rp = run_parts(v, flags, runs);
    let m = if time is Some { 2int } else { 1int };
    assert forall|i: int| 0 <= i < parts.len() implies 8 + (#[trigger] parts[i]).1.len() < 0x1_0000_0000 by {
        if i >= m {
            assert(parts[i] == rp[i - m]);
        }
    }
}

/// What a scan finds in a track fragment whose header says `t0`.
proof fn lemma_traf_scan(
    h: Seq<u8>,
    t0: TrafState,
    time: Option<u64>,
    v: Seq<u8>,
    flags: Seq<u32>,
    runs: Seq<TrunModel>,
    moof_start: u64,
    tracks: Seq<TrackModel>,
)
    requires
        h.len() <= 40,
        parts_fit(run_parts(v, flags, runs)),
        tfhd_of(no_scan().state, h, moof_start, tracks) == (t0, Ok::<(), Error>(())),
        time is Some ==> time->Some_0 <= i64::MAX,
    ensures
        ({
            let b = box_list(traf_parts(h, time, v, flags, runs));
            let (scan, r) = scan_from(b, 0, no_scan(), moof_start, tracks);
            &&& r is Ok
            &&& scan.tfhd_seen
            &&& scan.state == (match time {
                Some(t) => TrafState { base_media_decode_time: Some(t as i64), ..t0 },
                None => t0,
            })
        }),
{
    let rp = run_parts(v, flags, runs);
    let parts = traf_parts(h, time, v, flags, runs);
    let b = box_list(parts);
    let step = |s: TrafScan, c: Child| scan_step(s, c, moof_start, tracks);
    let s0 = no_scan();
    lemma_traf_parts_fit(h, time, v, flags, runs);
    law_walk_in_order(parts, s0, step);
    assert(scan_from(b, 0, s0, moof_start, tracks) == walk(b, 0, s0, step));
    let c0 = part_child(parts[0]);
    assert(parts[0] == (TFHD, h));
    let s1 = TrafScan { state: t0, tfhd_seen: true, ..s0 };
    assert(step(s0, c0) == (s1, Ok::<(), Error>(())));
    let rest = parts.drop_first();
    if let Some(t) = time {
        let c1 = part_child(rest[0]);
        law_tfdt_layout(1, 0, t);
        assert(rest[0] == (TFDT, seq![1u8] + enc24(0) + enc64(t)));
        let s2 = TrafScan { state: TrafState { base_media_decode_time: Some(t as i64), ..t0 }, ..s1 };
        assert(step(s1, c1) == (s2, Ok::<(), Error>(())));
        assert(rest.drop_first() =~= rp);
        lemma_scan_runs(rp, s2, moof_start, tracks);
        assert(each_part(rest, s1, step) == each_part(rp, s2, step));
    } else {
        assert(rest =~= rp);
        lemma_scan_runs(rp, s1, moof_start, tracks);
    }
    assert(each_part(parts, s0, step) == each_part(rest, s1, step));
}

/// The runs of a track fragment are found and can be read.
proof fn lemma_traf_runs(
    h: Seq<u8>,
    time: Option<u64>,
    v: Seq<u8>,
    flags: Seq<u32>,
    runs: Seq<TrunModel>,
    fields: Seq<RunFields>,
    s: RunState,
    st: TrafState,
    shift: i64,
)
    requires
        h.len() <= 40,
        parts_fit(run_parts(v, flags, runs)),
        runs_announced(v, flags, runs, fields),
    ensures
        ({
            let b = box_list(traf_parts(h, time, v, flags, runs));
            &&& runs_in(b, 0) == runs
            &&& runs_from(b, 0, s, st, shift).1 is Ok
        }),
{
    let rp = run_parts(v, flags, runs);
    let parts = traf_parts(h, time, v, flags, runs);
    let b = box_list(parts);
    let m = if time is Some { 2int } else { 1int };
    lemma_traf_parts_fit(h, time, v, flags, runs);
    let rest = parts.drop_first();
    assert(parts[0] == (TFHD, h));
    if let Some(t) = time {
        assert(rest[0] == (TFDT, seq![1u8] + enc24(0) + enc64(t)));
        assert(rest.drop_first() =~= rp);
        assert(part_runs(rest) == part_runs(rp));
    } else {
        assert(rest =~= rp);
    }
    lemma_runs_among(Seq::empty(), parts);
    assert(Seq::<u8>::empty() + b =~= b);
    lemma_part_runs(v, flags, runs, fields);
    assert(part_runs(parts) == part_runs(rest));
    let step = |s: RunState, c: Child| runs_step(s, c, st, shift);
    law_walk_in_order(parts, s, step);
    assert(runs_from(b, 0, s, st, shift) == walk(b, 0, s, step));
    assert forall|i: int| 0 <= i < parts.len() implies (#[trigger] parts[i]).0 != TRUN || trun_of(parts[i].1) is Ok by {
        if i >= m {
            assert(parts[i] == rp[i - m]);
            assert(announces(flags[i - m], runs[i - m], fields[i - m]));
            law_trun_layout(v[i - m], flags[i - m], runs[i - m], fields[i - m]);
        }
    }
    lemma_runs_walk(parts, s, st, shift);
}

/// A track fragment whose boxes can be read is read.
proof fn lemma_traf_ok(f: FragModel, b: Seq<u8>, moof_start: u64, tracks: Seq<TrackModel>, sequence: u32, k: int)
    requires
        0 <= k < tracks.len(),
        ({
            let (scan, r) = scan_from(b, 0, no_scan(), moof_start, tracks);
            let st = scan.state;
            let start = RunState {
                offset: st.base_data_offset,
                dts: or_default(st.base_media_decode_time, f.next_dts[k]),
                samples: f.samples,
            };
            &&& r is Ok
            &&& scan.tfhd_seen
            &&& st.track_idx == k
            &&& runs_from(b, 0, start, st, leading_media_time(tracks[k].elst)).1 is Ok
        }),
    ensures
        traf_of(f, b, moof_start, tracks, sequence).1 is Ok,
{
    reveal(traf_of);
}

proof fn lemma_tfhd_len(
    v: u8,
    flags: u32,
    id: u32,
    base: Option<u64>,
    index: Option<u32>,
    duration: Option<u32>,
    size: Option<u32>,
    sample_flags: Option<u32>,
)
    ensures
        tfhd_layout(v, flags, id, base, index, duration, size, sample_flags).len() <= 40,
{
}

/// A track fragment that is laid out as a header, a decode time and runs is read: which track it is of, where
/// its data offsets start, what its samples default to, when it starts, and its runs, in order.
pub proof fn law_traf_layout(
    f: FragModel,
    moof_start: u64,
    tracks: Seq<TrackModel>,
    sequence: u32,
    tfhd: (u8, u32, u32, Option<u64>, Option<u32>, Option<u32>, Option<u32>, Option<u32>),
    time: Option<u64>,
    v: Seq<u8>,
    flags: Seq<u32>,
    runs: Seq<TrunModel>,
    fields: Seq<RunFields>,
    k: int,
)
    requires
        tfhd.1 < 0x100_0000,
        bit(tfhd.1, 1) == (tfhd.3 is Some),
        bit(tfhd.1, 2) == (tfhd.4 is Some),
        bit(tfhd.1, 8) == (tfhd.5 is Some),
        bit(tfhd.1, 0x10) == (tfhd.6 is Some),
        bit(tfhd.1, 0x20) == (tfhd.7 is Some),
        0 <= k < tracks.len() <= usize::MAX,
        tracks[k].track_id == tfhd.2,
        forall|j: int| 0 <= j < k ==> (#[trigger] tracks[j]).track_id != tfhd.2,
        time is Some ==> time->Some_0 <= i64::MAX,
        runs_announced(v, flags, runs, fields),
        parts_fit(run_parts(v, flags, runs)),
    ensures
        ({
            let h = tfhd_layout(tfhd.0, tfhd.1, tfhd.2, tfhd.3, tfhd.4, tfhd.5, tfhd.6, tfhd.7);
            let b = box_list(traf_parts(h, time, v, flags, runs));
            let scan = scan_from(b, 0, no_scan(), moof_start, tracks).0;
            let st = scan.state;
            let d = tracks[k].trex;
            &&& traf_of(f, b, moof_start, tracks, sequence).1 is Ok
            &&& runs_in(b, 0) == runs
            &&& st.track_idx == k
            &&& st.base_data_offset == (if tfhd.3 is Some { tfhd.3->Some_0 } else { moof_start })
            &&& st.default_sample_duration == (if tfhd.5 is Some { tfhd.5->Some_0 } else { d.default_sample_duration })
            &&& st.default_sample_size == (if tfhd.6 is Some { tfhd.6->Some_0 } else { d.default_sample_size })
            &&& st.default_sample_flags == (if tfhd.7 is Some { tfhd.7->Some_0 } else { d.default_sample_flags })
            &&& st.base_media_decode_time == (if time is Some { Some(time->Some_0 as i64) } else { None })
        }),
{
    let h = tfhd_layout(tfhd.0, tfhd.1, tfhd.2, tfhd.3, tfhd.4, tfhd.5, tfhd.6, tfhd.7);
    let b = box_list(traf_parts(h, time, v, flags, runs));
    let s0 = no_scan();
    lemma_tfhd_len(tfhd.0, tfhd.1, tfhd.2, tfhd.3, tfhd.4, tfhd.5, tfhd.6, tfhd.7);
    law_tfhd_layout(
        s0.state,
        tfhd.0,
        tfhd.1,
        tfhd.2,
        tfhd.3,
        tfhd.4,
        tfhd.5,
        tfhd.6,
        tfhd.7,
        moof_start,
        tracks,
        k,
    );
    let t0 = tfhd_of(s0.state, h, moof_start, tracks).0;
    lemma_traf_scan(h, t0, time, v, flags, runs, moof_start, tracks);
    let st = scan_from(b, 0, s0, moof_start, tracks).0.state;
    let start = RunState {
        offset: st.base_data_offset,
        dts: or_default(st.base_media_decode_time, f.next_dts[k]),
        samples: f.samples,
    };
    lemma_traf_runs(h, time, v, flags, runs, fields, start, st, leading_media_time(tracks[k].elst));
    lemma_traf_ok(f, b, moof_start, tracks, sequence, k);
}

}
