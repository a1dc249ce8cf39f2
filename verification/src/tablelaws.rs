//! What the sample tables of a track mean: when each of its samples is decoded and shown, and where it is.
use vstd::prelude::*;
use crate::samples::{
    chunk_fill, decode_time, expand_from, expanded, law_expand_appends, place_run, place_runs, placement, run_end,
    run_value, sample_at, SampleRef,
};
use crate::track::{ElstEntry, TrackModel};
use crate::trak::leading_media_time;

verus! {

/// How many samples the first `k` runs cover.
pub open spec fn covered<T>(runs: Seq<(u32, T)>, k: int) -> int
    decreases k,
{
    if k <= 0 { 0 } else { covered(runs, k - 1) + runs[k - 1].0 }
}

/// How long the samples of the first `k` runs last.
pub open spec fn lasting(stts: Seq<(u32, u32)>, k: int) -> int
    decreases k,
{
    if k <= 0 { 0 } else { lasting(stts, k - 1) + stts[k - 1].0 * stts[k - 1].1 }
}

/// Whether the media of a track starts at the given time: that of its first edit that is not empty, or 0.
pub open spec fn media_starts(elst: Seq<ElstEntry>, shift: i64) -> bool {
    ||| exists|e: int|
        #![trigger elst[e]]
        0 <= e < elst.len() && elst[e].media_time == shift && shift != -1 && forall|j: int|
            0 <= j < e ==> (#[trigger] elst[j]).media_time == -1
    ||| shift == 0 && forall|j: int| 0 <= j < elst.len() ==> (#[trigger] elst[j]).media_time == -1
}

/// Whether the times of a track, which starts at `shift`, stay well within 64 bits.
pub open spec fn times_small(t: TrackModel, shift: i64) -> bool {
    &&& lasting(t.stts, t.stts.len() as int) <= 0x2000_0000_0000_0000
    &&& -0x2000_0000_0000_0000 <= shift <= 0x2000_0000_0000_0000
}

pub proof fn lemma_media_starts(elst: Seq<ElstEntry>, shift: i64)
    requires
        media_starts(elst, shift),
    ensures
        leading_media_time(elst) == shift,
    decreases elst.len(),
{
    if elst.len() > 0 && elst[0].media_time == -1 {
        let rest = elst.drop_first();
        assert(media_starts(rest, shift)) by {
            if exists|e: int|
                #![trigger elst[e]]
                0 <= e < elst.len() && elst[e].media_time == shift && shift != -1 && forall|j: int|
                    0 <= j < e ==> (#[trigger] elst[j]).media_time == -1 {
                let e = choose|e: int|
                    #![trigger elst[e]]
                    0 <= e < elst.len() && elst[e].media_time == shift && shift != -1 && forall|j: int|
                        0 <= j < e ==> (#[trigger] elst[j]).media_time == -1;
                assert(e > 0);
                assert(rest[e - 1] == elst[e]);
                assert forall|j: int| 0 <= j < e - 1 implies (#[trigger] rest[j]).media_time == -1 by {
                    assert(rest[j] == elst[j + 1]);
                }
            } else {
                assert forall|j: int| 0 <= j < rest.len() implies (#[trigger] rest[j]).media_time == -1 by {
                    assert(rest[j] == elst[j + 1]);
                }
            }
        }
        lemma_media_starts(rest, shift);
    } else if elst.len() > 0 {
        if exists|e: int|
            #![trigger elst[e]]
            0 <= e < elst.len() && elst[e].media_time == shift && shift != -1 && forall|j: int|
                0 <= j < e ==> (#[trigger] elst[j]).media_time == -1 {
            let e = choose|e: int|
                #![trigger elst[e]]
                0 <= e < elst.len() && elst[e].media_time == shift && shift != -1 && forall|j: int|
                    0 <= j < e ==> (#[trigger] elst[j]).media_time == -1;
            if e > 0 {
                assert(elst[0].media_time == -1);
            }
        }
    }
}

proof fn lemma_covered_rest<T>(runs: Seq<(u32, T)>, k: int)
    requires
        1 <= k <= runs.len(),
    ensures
        covered(runs, k) == runs[0].0 + covered(runs.drop_first(), k - 1),
    decreases k,
{
    if k > 1 {
        lemma_covered_rest(runs, k - 1);
        assert(runs.drop_first()[k - 2] == runs[k - 1]);
    } else {
        assert(covered(runs, 0) == 0);
    }
}

pub proof fn lemma_covered_grows<T>(runs: Seq<(u32, T)>, a: int, b: int)
    requires
        0 <= a <= b,
    ensures
        0 <= covered(runs, a) <= covered(runs, b),
    decreases b,
{
    if a < b {
        lemma_covered_grows(runs, a, b - 1);
    } else if a > 0 {
        lemma_covered_grows(runs, a - 1, b - 1);
    }
}

/// A run covers as many samples as its count says: the samples between those of the runs before it and those
/// of the runs behind it have its value.
pub proof fn law_run_covers<T>(runs: Seq<(u32, T)>, k: int, i: int)
    requires
        0 <= k < runs.len(),
        covered(runs, k) <= i < covered(runs, k + 1),
    ensures
        run_value(runs, i) == Some(runs[k].1),
    decreases runs.len(),
{
    lemma_covered_grows(runs, 0, k);
    if k > 0 {
        lemma_covered_rest(runs, k);
        lemma_covered_rest(runs, k + 1);
        lemma_covered_grows(runs.drop_first(), 0, k - 1);
        law_run_covers(runs.drop_first(), k - 1, i - runs[0].0);
        assert(runs.drop_first()[k - 1] == runs[k]);
    } else {
        assert(covered(runs, 1) == covered(runs, 0) + runs[0].0);
    }
}

/// Samples behind those that the runs cover have no value.
pub proof fn law_behind_runs<T>(runs: Seq<(u32, T)>, i: int)
    requires
        i >= covered(runs, runs.len() as int),
    ensures
        run_value(runs, i) is None,
    decreases runs.len(),
{
    if runs.len() > 0 {
        lemma_covered_rest(runs, runs.len() as int);
        lemma_covered_grows(runs.drop_first(), 0, runs.len() - 1);
        law_behind_runs(runs.drop_first(), i - runs[0].0);
    }
}

proof fn lemma_time_in_run(stts: Seq<(u32, u32)>, k: int, i: int)
    requires
        0 <= k < stts.len(),
        covered(stts, k) <= i <= covered(stts, k + 1),
    ensures
        decode_time(stts, i) == lasting(stts, k) + (i - covered(stts, k)) * stts[k].1,
    decreases i, k,
{
    lemma_covered_grows(stts, 0, k);
    if i > covered(stts, k) {
        lemma_time_in_run(stts, k, i - 1);
        law_run_covers(stts, k, i - 1);
        let a = i - covered(stts, k);
        let d = stts[k].1 as int;
        assert(a * d == (a - 1) * d + d) by (nonlinear_arith);
    } else if k > 0 {
        lemma_covered_grows(stts, k - 1, k);
        lemma_time_in_run(stts, k - 1, i);
        assert(i - covered(stts, k - 1) == stts[k - 1].0);
        assert((i - covered(stts, k)) * stts[k].1 == 0) by (nonlinear_arith)
            requires i - covered(stts, k) == 0;
    } else {
        assert((i - covered(stts, k)) * stts[k].1 == 0) by (nonlinear_arith)
            requires i - covered(stts, k) == 0;
    }
}

proof fn lemma_time_behind(stts: Seq<(u32, u32)>, i: int)
    requires
        i >= covered(stts, stts.len() as int),
        i >= 0,
    ensures
        decode_time(stts, i) == lasting(stts, stts.len() as int),
    decreases i,
{
    let n = stts.len() as int;
    lemma_covered_grows(stts, 0, n);
    if i > covered(stts, n) {
        law_behind_runs(stts, i - 1);
        lemma_time_behind(stts, i - 1);
    } else if n > 0 {
        lemma_covered_grows(stts, n - 1, n);
        lemma_time_in_run(stts, n - 1, i);
        assert(i - covered(stts, n - 1) == stts[n - 1].0);
    }
}

proof fn lemma_lasting_grows(stts: Seq<(u32, u32)>, a: int, b: int)
    requires
        0 <= a <= b,
    ensures
        0 <= lasting(stts, a) <= lasting(stts, b),
    decreases b,
{
    if a < b {
        lemma_lasting_grows(stts, a, b - 1);
        assert(stts[b - 1].0 * stts[b - 1].1 >= 0) by (nonlinear_arith);
    } else if a > 0 {
        lemma_lasting_grows(stts, a - 1, b - 1);
        assert(stts[b - 1].0 * stts[b - 1].1 >= 0) by (nonlinear_arith);
    }
}

proof fn lemma_find_run(stts: Seq<(u32, u32)>, i: int, n: int) -> (k: int)
    requires
        0 <= n <= stts.len(),
        0 <= i < covered(stts, n),
    ensures
        0 <= k < n,
        covered(stts, k) <= i < covered(stts, k + 1),
    decreases n,
{
    if i < covered(stts, n - 1) { lemma_find_run(stts, i, n - 1) } else { n - 1 }
}

/// Decode times lie between 0 and how long all samples last.
proof fn lemma_time_bounds(stts: Seq<(u32, u32)>, i: int)
    requires
        i >= 0,
    ensures
        0 <= decode_time(stts, i) <= lasting(stts, stts.len() as int),
{
    let n = stts.len() as int;
    lemma_lasting_grows(stts, 0, n);
    if i >= covered(stts, n) {
        lemma_time_behind(stts, i);
    } else {
        let k = lemma_find_run(stts, i, n);
        lemma_time_in_run(stts, k, i);
        lemma_lasting_grows(stts, 0, k);
        lemma_lasting_grows(stts, k + 1, n);
        let a = i - covered(stts, k);
        let c = stts[k].0 as int;
        let d = stts[k].1 as int;
        assert(0 <= a * d <= c * d) by (nonlinear_arith)
            requires 0 <= a <= c, 0 <= d;
    }
}

/// The `i`th sample of a track among those that its expansion gives.
proof fn lemma_sample(t: TrackModel, track_idx: u32, acc: Seq<SampleRef>, i: int)
    requires
        expanded(t, track_idx, acc).1 is Ok,
        0 <= i < t.stsz.len(),
    ensures
        expanded(t, track_idx, acc).0.len() == acc.len() + t.stsz.len(),
        expanded(t, track_idx, acc).0[acc.len() + i] == sample_at(
            t,
            track_idx,
            placement(t.stsc, t.chunk_offsets.len(), t.stsz.len()),
            i,
        ),
{
    let p = placement(t.stsc, t.chunk_offsets.len(), t.stsz.len());
    law_expand_appends(t, track_idx, p, 0, acc);
}

/// What is expanded keeps what was there, and gives the track of each sample, its size, and whether it is a
/// keyframe: where none is listed all are, else those whose number, from 1 on, is.
pub proof fn law_samples_described(t: TrackModel, track_idx: u32, acc: Seq<SampleRef>, i: int)
    requires
        expanded(t, track_idx, acc).1 is Ok,
        0 <= i < t.stsz.len() < 0xFFFF_FFFF,
    ensures
        expanded(t, track_idx, acc).0.len() == acc.len() + t.stsz.len(),
        expanded(t, track_idx, acc).0.subrange(0, acc.len() as int) == acc,
        ({
            let s = expanded(t, track_idx, acc).0[acc.len() + i];
            &&& s.track_idx == track_idx
            &&& s.size == t.stsz[i]
            &&& s.keyframe <==> (t.stss.len() == 0 || exists|j: int|
                0 <= j < t.stss.len() && #[trigger] t.stss[j] == i + 1)
        }),
{
    lemma_sample(t, track_idx, acc, i);
    law_expand_appends(t, track_idx, placement(t.stsc, t.chunk_offsets.len(), t.stsz.len()), 0, acc);
    let n = (i + 1) as u32;
    if t.stss.contains(n) {
        let j = t.stss.index_of(n);
        assert(t.stss[j] == i + 1);
    }
    if exists|j: int| 0 <= j < t.stss.len() && #[trigger] t.stss[j] == i + 1 {
        let j = choose|j: int| 0 <= j < t.stss.len() && #[trigger] t.stss[j] == i + 1;
        assert(t.stss[j] == n);
        assert(t.stss.contains(n));
    }
}

/// A sample in a run of the time table is decoded behind the samples of the runs before and behind those
/// before it in its run; it lasts as long as the run says. The time at which the media starts is taken off.
pub proof fn law_sample_decoded(t: TrackModel, track_idx: u32, acc: Seq<SampleRef>, shift: i64, k: int, i: int)
    requires
        expanded(t, track_idx, acc).1 is Ok,
        media_starts(t.elst, shift),
        times_small(t, shift),
        0 <= i < t.stsz.len(),
        0 <= k < t.stts.len(),
        covered(t.stts, k) <= i < covered(t.stts, k + 1),
    ensures
        ({
            let s = expanded(t, track_idx, acc).0[acc.len() + i];
            &&& s.dts == lasting(t.stts, k) + (i - covered(t.stts, k)) * t.stts[k].1 - shift
            &&& s.duration == t.stts[k].1
        }),
{
    lemma_sample(t, track_idx, acc, i);
    lemma_media_starts(t.elst, shift);
    law_run_covers(t.stts, k, i);
    lemma_time_in_run(t.stts, k, i);
    lemma_time_bounds(t.stts, i);
}

/// A sample behind the runs of the time table is decoded where they end, and lasts no time.
pub proof fn law_sample_untimed(t: TrackModel, track_idx: u32, acc: Seq<SampleRef>, shift: i64, i: int)
    requires
        expanded(t, track_idx, acc).1 is Ok,
        media_starts(t.elst, shift),
        times_small(t, shift),
        0 <= i < t.stsz.len(),
        i >= covered(t.stts, t.stts.len() as int),
    ensures
        ({
            let s = expanded(t, track_idx, acc).0[acc.len() + i];
            &&& s.dts == lasting(t.stts, t.stts.len() as int) - shift
            &&& s.duration == 0
        }),
{
    lemma_sample(t, track_idx, acc, i);
    lemma_media_starts(t.elst, shift);
    law_behind_runs(t.stts, i);
    lemma_time_behind(t.stts, i);
    lemma_time_bounds(t.stts, i);
}

/// A sample is shown as much later than it is decoded as the run of the composition table says that covers
/// it, and where none does when it is decoded.
pub proof fn law_sample_shown(t: TrackModel, track_idx: u32, acc: Seq<SampleRef>, shift: i64, i: int)
    requires
        expanded(t, track_idx, acc).1 is Ok,
        media_starts(t.elst, shift),
        times_small(t, shift),
        0 <= i < t.stsz.len(),
    ensures
        ({
            let s = expanded(t, track_idx, acc).0[acc.len() + i];
            &&& forall|k: int|
                0 <= k < t.ctts.len() && #[trigger] covered(t.ctts, k) <= i < covered(t.ctts, k + 1) ==> s.pts - s.dts
                    == t.ctts[k].1
            &&& i >= covered(t.ctts, t.ctts.len() as int) ==> s.pts == s.dts
        }),
{
    lemma_sample(t, track_idx, acc, i);
    lemma_media_starts(t.elst, shift);
    lemma_time_bounds(t.stts, i);
    let s = expanded(t, track_idx, acc).0[acc.len() + i];
    assert forall|k: int|
        0 <= k < t.ctts.len() && #[trigger] covered(t.ctts, k) <= i < covered(t.ctts, k + 1) implies s.pts - s.dts
        == t.ctts[k].1 by {
        law_run_covers(t.ctts, k, i);
    }
    if i >= covered(t.ctts, t.ctts.len() as int) {
        law_behind_runs(t.ctts, i);
    }
}

/// How many samples there are in chunk `c`, as the last of the first `e` entries says that does not start
/// behind it.
pub open spec fn per_chunk(stsc: Seq<(u32, u32, u32)>, c: int, e: int) -> int
    decreases e,
{
    if e <= 0 {
        0
    } else if stsc[e - 1].0 <= c {
        stsc[e - 1].1 as int
    } else {
        per_chunk(stsc, c, e - 1)
    }
}

/// How many samples there are in the chunks before chunk `c`. Chunks are numbered from 1.
pub open spec fn before_chunk(stsc: Seq<(u32, u32, u32)>, c: int) -> int
    decreases c,
{
    if c <= 1 { 0 } else { before_chunk(stsc, c - 1) + per_chunk(stsc, c - 1, stsc.len() as int) }
}

/// Whether the entries of a sample-to-chunk table start at chunk 1 and ascend.
pub open spec fn chunks_ascend(stsc: Seq<(u32, u32, u32)>) -> bool {
    &&& stsc.len() > 0
    &&& stsc[0].0 == 1
    &&& forall|a: int, b: int| 0 <= a < b < stsc.len() ==> (#[trigger] stsc[a]).0 < (#[trigger] stsc[b]).0
}

proof fn lemma_per_chunk(stsc: Seq<(u32, u32, u32)>, e: int, c: int, n: int)
    requires
        chunks_ascend(stsc),
        0 <= e < n <= stsc.len(),
        stsc[e].0 <= c,
        forall|b: int| e < b < n ==> (#[trigger] stsc[b]).0 > c,
    ensures
        per_chunk(stsc, c, n) == stsc[e].1,
    decreases n,
{
    if n - 1 > e {
        assert(stsc[n - 1].0 > c);
        lemma_per_chunk(stsc, e, c, n - 1);
    }
}

proof fn lemma_before_grows(stsc: Seq<(u32, u32, u32)>, a: int, b: int)
    requires
        1 <= a <= b,
    ensures
        0 <= before_chunk(stsc, a) <= before_chunk(stsc, b),
    decreases b,
{
    if a < b {
        lemma_before_grows(stsc, a, b - 1);
        lemma_per_chunk_positive(stsc, b - 1, stsc.len() as int);
    } else if a > 1 {
        lemma_before_grows(stsc, a - 1, b - 1);
        lemma_per_chunk_positive(stsc, b - 1, stsc.len() as int);
    }
}

proof fn lemma_per_chunk_positive(stsc: Seq<(u32, u32, u32)>, c: int, e: int)
    ensures
        per_chunk(stsc, c, e) >= 0,
    decreases e,
{
    if e > 0 && stsc[e - 1].0 > c {
        lemma_per_chunk_positive(stsc, c, e - 1);
    }
}

/// Whether the samples of the chunks before `ch` have been placed, up to the `n`th sample.
spec fn placed(stsc: Seq<(u32, u32, u32)>, acc: Seq<(u32, u32)>, ch: int, n: int) -> bool {
    &&& acc.len() == (if before_chunk(stsc, ch) < n { before_chunk(stsc, ch) } else { n })
    &&& forall|c: int, i: int|
        #![trigger before_chunk(stsc, c), acc[i]]
        1 <= c < ch && before_chunk(stsc, c) <= i < before_chunk(stsc, c + 1) && i < acc.len() ==> acc[i].0 == c
            && acc[i].1 == i - before_chunk(stsc, c)
}

proof fn lemma_placed_later(stsc: Seq<(u32, u32, u32)>, acc: Seq<(u32, u32)>, ch: int, later: int, n: int)
    requires
        1 <= ch <= later,
        placed(stsc, acc, ch, n),
        before_chunk(stsc, ch) >= n,
    ensures
        placed(stsc, acc, later, n),
{
    lemma_before_grows(stsc, ch, later);
    assert forall|c: int, i: int|
        #![trigger before_chunk(stsc, c), acc[i]]
        1 <= c < later && before_chunk(stsc, c) <= i < before_chunk(stsc, c + 1) && i < acc.len() implies acc[i].0 == c
        && acc[i].1 == i - before_chunk(stsc, c) by {
        if c >= ch {
            lemma_before_grows(stsc, ch, c);
        }
    }
}

proof fn lemma_place_run(
    stsc: Seq<(u32, u32, u32)>,
    ch: u32,
    end: u32,
    spc: u32,
    n: int,
    acc: Seq<(u32, u32)>,
)
    requires
        1 <= ch,
        0 <= n,
        placed(stsc, acc, ch as int, n),
        forall|c: int| ch <= c < end ==> #[trigger] per_chunk(stsc, c, stsc.len() as int) == spc,
    ensures
        ({
            let (out, next) = place_run(ch, end, spc, n as nat, acc);
            &&& placed(stsc, out, next as int, n)
            &&& ch <= next
            &&& next < end ==> before_chunk(stsc, next as int) >= n
            &&& next <= end || next == ch
        }),
    decreases end - ch,
{
    lemma_before_grows(stsc, 1, ch as int);
    if ch < end && acc.len() < n {
        let k = if spc < n - acc.len() { spc as nat } else { (n - acc.len()) as nat };
        let out = acc + chunk_fill(ch, k);
        let b = before_chunk(stsc, ch as int);
        assert(per_chunk(stsc, ch as int, stsc.len() as int) == spc);
        assert(before_chunk(stsc, ch + 1) == b + spc);
        assert(acc.len() == b);
        assert(placed(stsc, out, ch + 1, n)) by {
            assert forall|c: int, i: int|
                #![trigger before_chunk(stsc, c), out[i]]
                1 <= c < ch + 1 && before_chunk(stsc, c) <= i < before_chunk(stsc, c + 1) && i < out.len() implies out[i].0
                == c && out[i].1 == i - before_chunk(stsc, c) by {
                lemma_before_grows(stsc, 1, c);
                if c < ch {
                    lemma_before_grows(stsc, c + 1, ch as int);
                    assert(out[i] == acc[i]);
                } else {
                    assert(out[i] == chunk_fill(ch, k)[i - b]);
                }
            }
        }
        lemma_place_run(stsc, (ch + 1) as u32, end, spc, n, out);
    }
}

proof fn lemma_place_runs(stsc: Seq<(u32, u32, u32)>, e: int, chunks: nat, ch: u32, n: int, acc: Seq<(u32, u32)>)
    requires
        chunks_ascend(stsc),
        0 <= e <= stsc.len(),
        chunks < u32::MAX,
        0 <= n,
        1 <= ch,
        placed(stsc, acc, ch as int, n),
        before_chunk(stsc, ch as int) >= n || (e < stsc.len() && ch == stsc[e].0) || (e == stsc.len() && ch > chunks),
    ensures
        ({
            let out = place_runs(stsc, e, chunks, ch, n as nat, acc);
            exists|next: int|
                1 <= next && #[trigger] placed(stsc, out, next, n) && (before_chunk(stsc, next) >= n || next > chunks)
        }),
    decreases stsc.len() - e,
{
    if e < stsc.len() {
        let first = if ch > stsc[e].0 { ch } else { stsc[e].0 };
        let end = run_end(stsc, e, chunks);
        if first > ch {
            lemma_placed_later(stsc, acc, ch as int, first as int, n);
        }
        lemma_before_grows(stsc, ch as int, first as int);
        assert forall|c: int| first <= c < end implies #[trigger] per_chunk(stsc, c, stsc.len() as int) == stsc[e].1 by {
            if e + 1 < stsc.len() {
                assert forall|b: int| e < b < stsc.len() implies (#[trigger] stsc[b]).0 > c by {
                    if b > e + 1 {
                        assert(stsc[e + 1].0 < stsc[b].0);
                    }
                }
            }
            lemma_per_chunk(stsc, e, c, stsc.len() as int);
        }
        lemma_place_run(stsc, first, end, stsc[e].1, n, acc);
        let (out, next) = place_run(first, end, stsc[e].1, n as nat, acc);
        if e + 1 < stsc.len() {
            assert(stsc[e].0 < stsc[e + 1].0);
            if next != end && next >= end {
                assert(next == first);
                lemma_before_grows(stsc, ch as int, next as int);
            }
        }
        lemma_before_grows(stsc, first as int, next as int);
        lemma_place_runs(stsc, e + 1, chunks, next, n, out);
        assert(place_runs(stsc, e, chunks, ch, n as nat, acc) == place_runs(stsc, e + 1, chunks, next, n as nat, out));
    } else {
        assert(place_runs(stsc, e, chunks, ch, n as nat, acc) == acc);
        assert(placed(stsc, acc, ch as int, n));
    }
}

/// A sample of chunk `c` is placed there, behind those of the chunk that come before it.
proof fn lemma_placement(stsc: Seq<(u32, u32, u32)>, chunks: nat, n: nat, c: int, i: int)
    requires
        chunks_ascend(stsc),
        chunks < u32::MAX,
        1 <= c <= chunks,
        before_chunk(stsc, c) <= i < before_chunk(stsc, c + 1),
        i < n,
    ensures
        placement(stsc, chunks, n).len() == n,
        placement(stsc, chunks, n)[i].0 == c,
        placement(stsc, chunks, n)[i].1 == i - before_chunk(stsc, c),
{
    let none = Seq::<(u32, u32)>::empty();
    assert(placed(stsc, none, 1, n as int));
    lemma_place_runs(stsc, 0, chunks, 1, n as int, none);
    let out = place_runs(stsc, 0, chunks, 1, n, none);
    let next = choose|next: int|
        1 <= next && #[trigger] placed(stsc, out, next, n as int) && (before_chunk(stsc, next) >= n || next > chunks);
    lemma_before_grows(stsc, 1, c);
    if next <= c {
        lemma_before_grows(stsc, next, c);
        assert(false);
    }
    lemma_before_grows(stsc, c + 1, next);
    assert(i < out.len());
    assert(out[i].0 == c && out[i].1 == i - before_chunk(stsc, c));
    assert(placement(stsc, chunks, n)[i] == out[i]);
}

/// Each sample is in its chunk: the first of a chunk where the chunk starts, and every other one behind the
/// one before it. Chunks have as many samples as the last entry says that does not start behind them.
pub proof fn law_sample_place(t: TrackModel, track_idx: u32, acc: Seq<SampleRef>, c: int, i: int)
    requires
        expanded(t, track_idx, acc).1 is Ok,
        chunks_ascend(t.stsc),
        t.chunk_offsets.len() < u32::MAX,
        1 <= c <= t.chunk_offsets.len(),
        before_chunk(t.stsc, c) <= i < before_chunk(t.stsc, c + 1),
        i < t.stsz.len(),
    ensures
        ({
            let out = expanded(t, track_idx, acc).0;
            let s = out[acc.len() + i];
            &&& i == before_chunk(t.stsc, c) ==> s.offset == t.chunk_offsets[c - 1]
            &&& i > before_chunk(t.stsc, c) && out[acc.len() + i - 1].offset + t.stsz[i - 1] <= u64::MAX ==> s.offset
                == out[acc.len() + i - 1].offset + t.stsz[i - 1]
        }),
{
    let n = t.stsz.len();
    let p = placement(t.stsc, t.chunk_offsets.len(), n);
    lemma_before_grows(t.stsc, 1, c);
    lemma_sample(t, track_idx, acc, i);
    lemma_placement(t.stsc, t.chunk_offsets.len(), n, c, i);
    if i > before_chunk(t.stsc, c) {
        lemma_sample(t, track_idx, acc, i - 1);
        lemma_placement(t.stsc, t.chunk_offsets.len(), n, c, i - 1);
        let base = t.chunk_offsets[c - 1] as int;
        let start = before_chunk(t.stsc, c);
        crate::samples::law_placement(t.stsc, t.chunk_offsets.len(), n);
        crate::samples::law_chunk_contiguous(t, p, i);
    }
}

/// The tables of a track expand where its chunks hold all of its samples.
pub proof fn law_tables_expand(t: TrackModel, track_idx: u32, acc: Seq<SampleRef>)
    requires
        chunks_ascend(t.stsc),
        t.chunk_offsets.len() < u32::MAX,
        t.stsz.len() <= before_chunk(t.stsc, t.chunk_offsets.len() as int + 1),
    ensures
        expanded(t, track_idx, acc).1 is Ok,
{
    let p = placement(t.stsc, t.chunk_offsets.len(), t.stsz.len());
    assert forall|i: int| 0 <= i < t.stsz.len() implies 1 <= (#[trigger] p[i]).0 <= t.chunk_offsets.len() by {
        let c = lemma_find_chunk(t.stsc, i, t.chunk_offsets.len() as int + 1);
        lemma_placement(t.stsc, t.chunk_offsets.len(), t.stsz.len(), c, i);
    }
    lemma_expand_ok(t, track_idx, p, 0, acc);
}

proof fn lemma_find_chunk(stsc: Seq<(u32, u32, u32)>, i: int, end: int) -> (c: int)
    requires
        1 <= end,
        0 <= i < before_chunk(stsc, end),
    ensures
        1 <= c < end,
        before_chunk(stsc, c) <= i < before_chunk(stsc, c + 1),
    decreases end,
{
    if i < before_chunk(stsc, end - 1) { lemma_find_chunk(stsc, i, end - 1) } else { end - 1 }
}

proof fn lemma_expand_ok(t: TrackModel, track_idx: u32, p: Seq<(u32, u32)>, i: int, acc: Seq<SampleRef>)
    requires
        0 <= i,
        forall|k: int| 0 <= k < t.stsz.len() ==> 1 <= (#[trigger] p[k]).0 <= t.chunk_offsets.len(),
    ensures
        expand_from(t, track_idx, p, i, acc).1 is Ok,
    decreases t.stsz.len() - i,
{
    if i < t.stsz.len() {
        assert(p[i].0 >= 1);
        lemma_expand_ok(t, track_idx, p, i + 1, acc.push(sample_at(t, track_idx, p, i)));
    }
}

}
