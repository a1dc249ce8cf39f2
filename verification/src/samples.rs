//! Samples: the sample tables of a track, expanded.
use std::collections::HashSet;
use vstd::prelude::*;
use crate::boxes::Outcome;
use crate::error::{Detail, Error, Result};
use crate::numbers::{
    clamp64, clamped_add, clamped_sub, lemma_wrap64_add, lemma_wrap_u64_add, length32, low32, wrap64,
    wrap_u64, wrapped_add, wrapped_add_u64,
};
use crate::track::{Track, TrackModel};
use crate::trak::{elst_leading_media_time, leading_media_time};

verus! {

/// A sample: where it is in the file, and when it is decoded and shown, in the timescale of
/// its track.
#[derive(Clone, Copy, Debug)]
pub struct SampleRef {
    pub track_idx: u32,
    pub offset: u64,
    pub size: u32,
    /// When it is shown.
    pub pts: i64,
    /// When it is decoded.
    pub dts: i64,
    pub duration: i64,
    pub keyframe: bool,
}

/// The value for the `i`th sample in a table of runs, or `None` behind the last run.
pub open spec fn run_value<T>(runs: Seq<(u32, T)>, i: int) -> Option<T>
    decreases runs.len(),
{
    if runs.len() == 0 {
        None
    } else if i < runs[0].0 {
        Some(runs[0].1)
    } else {
        run_value(runs.drop_first(), i - runs[0].0)
    }
}

/// The values for the first `n` samples in a table of runs.
fn run_values<T: Copy>(runs: &Vec<(u32, T)>, n: usize) -> (r: Vec<Option<T>>)
    ensures
        r@ == Seq::new(n as nat, |i: int| run_value(runs@, i)),
{
    let mut out: Vec<Option<T>> = Vec::new();
    let mut i: usize = 0;
    let mut run: usize = 0;
    let mut used: u32 = 0;
    let ghost end = runs@.len() as int;
    proof { assert(runs@.subrange(0, end) =~= runs@); }
    while i < n
        invariant
            i <= n,
            run <= runs@.len(),
            end == runs@.len(),
            run < runs@.len() ==> used <= runs@[run as int].0,
            out@ =~= Seq::new(i as nat, |k: int| run_value(runs@, k)),
            forall|m: int| m >= 0 ==> #[trigger] run_value(runs@, i + m) == run_value(
                runs@.subrange(run as int, end),
                used + m,
            ),
        decreases n - i, runs@.len() - run,
    {
        if run >= runs.len() {
            proof {
                assert(run_value(runs@, i + 0) == run_value(runs@.subrange(run as int, end), used + 0));
                assert forall|m: int| m >= 0 implies #[trigger] run_value(runs@, i + 1 + m) == run_value(
                    runs@.subrange(run as int, end),
                    used + m,
                ) by {
                    assert(run_value(runs@, i + (1 + m)) == run_value(runs@.subrange(run as int, end), used + (1 + m)));
                }
            }
            out.push(None);
            i += 1;
        } else if used >= runs[run].0 {
            proof {
                let here = runs@.subrange(run as int, end);
                assert(here.drop_first() =~= runs@.subrange(run + 1, end));
                assert forall|m: int| m >= 0 implies #[trigger] run_value(runs@, i + m) == run_value(
                    runs@.subrange(run + 1, end),
                    0 + m,
                ) by {
                    assert(run_value(here, used + m) == run_value(here.drop_first(), used + m - here[0].0));
                }
            }
            run += 1;
            used = 0;
        } else {
            proof {
                let here = runs@.subrange(run as int, end);
                assert(run_value(runs@, i + 0) == run_value(here, used + 0));
                assert forall|m: int| m >= 0 implies #[trigger] run_value(runs@, i + 1 + m) == run_value(
                    here,
                    used + 1 + m,
                ) by {
                    assert(run_value(runs@, i + (1 + m)) == run_value(here, used + (1 + m)));
                }
            }
            out.push(Some(runs[run].1));
            used += 1;
            i += 1;
        }
    }
    out
}

/// The duration of the `i`th sample; 0 behind the last run.
pub open spec fn sample_delta(stts: Seq<(u32, u32)>, i: int) -> u32 {
    match run_value(stts, i) {
        Some(d) => d,
        None => 0,
    }
}

/// The decode time of the `i`th sample: the durations of those before it, added up.
pub open spec fn decode_time(stts: Seq<(u32, u32)>, i: int) -> int
    decreases i,
{
    if i <= 0 { 0 } else { decode_time(stts, i - 1) + sample_delta(stts, i - 1) }
}

/// How much later than it is decoded the `i`th sample is composed; 0 behind the last run.
pub open spec fn composition_offset(ctts: Seq<(u32, i32)>, i: int) -> i32 {
    match run_value(ctts, i) {
        Some(d) => d,
        None => 0,
    }
}

/// `k` samples in chunk `ch`, with how many come before each in the chunk.
pub open spec fn chunk_fill(ch: u32, k: nat) -> Seq<(u32, u32)> {
    Seq::new(k, |j: int| (ch, j as u32))
}

/// The samples in chunks from `ch` to before `end`, `spc` in each, behind those in `acc`, until
/// there are `n` samples; and the chunk that comes next.
pub open spec fn place_run(ch: u32, end: u32, spc: u32, n: nat, acc: Seq<(u32, u32)>) -> (Seq<(u32, u32)>, u32)
    decreases end - ch,
{
    if ch >= end || acc.len() >= n {
        (acc, ch)
    } else {
        let k = if spc < n - acc.len() { spc as nat } else { (n - acc.len()) as nat };
        place_run((ch + 1) as u32, end, spc, n, acc + chunk_fill(ch, k))
    }
}

/// The first chunk behind the run of entry `e`.
pub open spec fn run_end(stsc: Seq<(u32, u32, u32)>, e: int, chunks: nat) -> u32 {
    if e + 1 < stsc.len() { stsc[e + 1].0 } else { low32(chunks as int + 1) }
}

/// The samples that the entries from `e` on place, behind those in `acc`. `ch` is the first
/// chunk that is still free.
pub open spec fn place_runs(
    stsc: Seq<(u32, u32, u32)>,
    e: int,
    chunks: nat,
    ch: u32,
    n: nat,
    acc: Seq<(u32, u32)>,
) -> Seq<(u32, u32)>
    decreases stsc.len() - e,
{
    if e >= stsc.len() {
        acc
    } else {
        let first = if ch > stsc[e].0 { ch } else { stsc[e].0 };
        let (acc2, next) = place_run(first, run_end(stsc, e, chunks), stsc[e].1, n, acc);
        place_runs(stsc, e + 1, chunks, next, n, acc2)
    }
}

/// Samples that no entry places go to the last chunk in use, each as if it were the first there.
pub open spec fn place_rest(acc: Seq<(u32, u32)>, n: nat) -> Seq<(u32, u32)> {
    let last: u32 = if acc.len() == 0 { 1 } else { acc.last().0 };
    acc + Seq::new((n - acc.len()) as nat, |j: int| (last, 0u32))
}

/// The chunk of each of `n` samples, and how many samples come before it in the chunk.
pub open spec fn placement(stsc: Seq<(u32, u32, u32)>, chunks: nat, n: nat) -> Seq<(u32, u32)> {
    place_rest(place_runs(stsc, 0, chunks, 1, n, Seq::empty()), n)
}

/// A sample that is not the first in its chunk follows the one before it there.
pub open spec fn consecutive(p: Seq<(u32, u32)>) -> bool {
    forall|i: int|
        0 <= i < p.len() && (#[trigger] p[i]).1 > 0 ==> i > 0 && p[i - 1].0 == p[i].0 && p[i - 1].1 + 1 == p[i].1
}

/// The sizes of the samples from `a` to before `b`, added up.
pub open spec fn sum_sizes(stsz: Seq<u32>, a: int, b: int) -> int
    decreases b - a,
{
    if b <= a { 0 } else { sum_sizes(stsz, a, b - 1) + stsz[b - 1] }
}

/// Where the `i`th sample starts: behind those that come before it in its chunk.
pub open spec fn sample_offset(t: TrackModel, p: Seq<(u32, u32)>, i: int) -> u64 {
    wrap_u64(t.chunk_offsets[p[i].0 - 1] + sum_sizes(t.stsz, i - p[i].1, i))
}

/// Whether the `i`th sample is a sync sample; all are where none is listed.
pub open spec fn is_sync(stss: Seq<u32>, i: int) -> bool {
    stss.len() == 0 || stss.contains(low32(i + 1))
}

/// The `i`th sample of a track. Times are shifted so that the media starts at 0.
pub open spec fn sample_at(t: TrackModel, track_idx: u32, p: Seq<(u32, u32)>, i: int) -> SampleRef {
    let dts = wrap64(decode_time(t.stts, i));
    let shift = leading_media_time(t.elst);
    SampleRef {
        track_idx,
        offset: sample_offset(t, p, i),
        size: t.stsz[i],
        pts: clamp64(clamp64(dts + composition_offset(t.ctts, i)) - shift),
        dts: clamp64(dts - shift),
        duration: sample_delta(t.stts, i) as i64,
        keyframe: is_sync(t.stss, i),
    }
}

/// The samples of a track from the `i`th on, behind those in `acc`. A chunk without an offset
/// ends the list with an error.
pub open spec fn expand_from(t: TrackModel, track_idx: u32, p: Seq<(u32, u32)>, i: int, acc: Seq<SampleRef>) -> Outcome<
    Seq<SampleRef>,
>
    decreases t.stsz.len() - i,
{
    if i >= t.stsz.len() {
        (acc, Ok(()))
    } else if p[i].0 == 0 || p[i].0 > t.chunk_offsets.len() {
        (acc, Err(Error::InvalidData(Detail::ChunkOutOfRange { chunk: p[i].0, track: track_idx })))
    } else {
        expand_from(t, track_idx, p, i + 1, acc.push(sample_at(t, track_idx, p, i)))
    }
}

/// The samples of a track, behind those in `acc`.
pub open spec fn expanded(t: TrackModel, track_idx: u32, acc: Seq<SampleRef>) -> Outcome<Seq<SampleRef>> {
    expand_from(t, track_idx, placement(t.stsc, t.chunk_offsets.len(), t.stsz.len()), 0, acc)
}

/// Filling a chunk keeps samples consecutive.
proof fn lemma_fill(acc: Seq<(u32, u32)>, ch: u32, k: nat)
    requires
        consecutive(acc),
        k <= u32::MAX,
    ensures
        consecutive(acc + chunk_fill(ch, k)),
{
    let p = acc + chunk_fill(ch, k);
    assert forall|i: int| 0 <= i < p.len() && (#[trigger] p[i]).1 > 0 implies i > 0 && p[i - 1].0 == p[i].0 && p[i
        - 1].1 + 1 == p[i].1 by {
        if i < acc.len() {
            assert(acc[i].1 > 0);
        }
    }
}

/// A sample has at most as many before it in its chunk as it has before it at all.
pub proof fn lemma_within(p: Seq<(u32, u32)>, i: int)
    requires
        consecutive(p),
        0 <= i < p.len(),
    ensures
        p[i].1 <= i,
    decreases i,
{
    if p[i].1 > 0 {
        lemma_within(p, i - 1);
    }
}

/// Places the samples of the chunks from `first` to before `end`.
fn run_placement(first: u32, end: u32, spc: u32, n: usize, out: &mut Vec<(u32, u32)>) -> (next: u32)
    requires
        old(out)@.len() <= n,
        consecutive(old(out)@),
    ensures
        (final(out)@, next) == place_run(first, end, spc, n as nat, old(out)@),
        final(out)@.len() <= n,
        consecutive(final(out)@),
{
    let mut ch: u32 = first;
    while ch < end && out.len() < n
        invariant
            out@.len() <= n,
            consecutive(out@),
            place_run(first, end, spc, n as nat, old(out)@) == place_run(ch, end, spc, n as nat, out@),
        decreases end - ch,
    {
        let ghost acc = out@;
        let mut j: u32 = 0;
        proof { assert(out@ =~= acc + chunk_fill(ch, 0)); }
        while j < spc && out.len() < n
            invariant
                j <= spc,
                acc.len() + j <= n,
                out@ =~= acc + chunk_fill(ch, j as nat),
            decreases spc - j,
        {
            out.push((ch, j));
            j += 1;
        }
        proof { lemma_fill(acc, ch, j as nat); }
        ch += 1;
    }
    ch
}

/// Finds the chunk of each sample, and how many samples come before it in the chunk.
fn place_samples(t: &Track) -> (p: Vec<(u32, u32)>)
    ensures
        p@ == placement(t@.stsc, t@.chunk_offsets.len(), t@.stsz.len()),
        p@.len() == t@.stsz.len(),
        consecutive(p@),
{
    let n: usize = t.stsz.len();
    let ghost stsc = t@.stsc;
    let ghost chunks = t@.chunk_offsets.len();
    let mut out: Vec<(u32, u32)> = Vec::new();
    let mut ch: u32 = 1;
    let mut e: usize = 0;
    let past: u32 = length32(t.chunk_offsets.len(), 1);
    proof { assert(out@ =~= Seq::<(u32, u32)>::empty()); }
    while e < t.stsc.len()
        invariant
            e <= t.stsc@.len(),
            stsc == t.stsc@,
            past == low32(chunks as int + 1),
            out@.len() <= n,
            consecutive(out@),
            place_runs(stsc, 0, chunks, 1, n as nat, Seq::empty()) == place_runs(
                stsc,
                e as int,
                chunks,
                ch,
                n as nat,
                out@,
            ),
        decreases t.stsc@.len() - e,
    {
        let (fc, spc, _) = t.stsc[e];
        let end: u32 = if e + 1 < t.stsc.len() { t.stsc[e + 1].0 } else { past };
        let first: u32 = if ch > fc { ch } else { fc };
        ch = run_placement(first, end, spc, n, &mut out);
        e += 1;
    }
    let ghost acc = out@;
    let last: u32 = if out.len() == 0 { 1 } else { out[out.len() - 1].0 };
    proof { assert(out@ =~= acc + Seq::new(0, |j: int| (last, 0u32))); }
    while out.len() < n
        invariant
            acc.len() <= out@.len() <= n,
            consecutive(acc),
            consecutive(out@),
            out@ =~= acc + Seq::new((out@.len() - acc.len()) as nat, |j: int| (last, 0u32)),
        decreases n - out@.len(),
    {
        out.push((last, 0));
    }
    out
}

/// The sync sample numbers of a track, as a set.
fn sync_set(stss: &Vec<u32>) -> (s: HashSet<u32>)
    ensures
        forall|x: u32| s@.contains(x) <==> stss@.contains(x),
{
    broadcast use vstd::std_specs::hash::group_hash_axioms;

    let mut s: HashSet<u32> = HashSet::new();
    let mut i: usize = 0;
    while i < stss.len()
        invariant
            i <= stss@.len(),
            forall|x: u32| s@.contains(x) <==> stss@.subrange(0, i as int).contains(x),
        decreases stss@.len() - i,
    {
        s.insert(stss[i]);
        proof {
            let before = stss@.subrange(0, i as int);
            let after = stss@.subrange(0, i + 1);
            assert(after =~= before.push(stss@[i as int]));
            assert forall|x: u32| after.contains(x) <==> (before.contains(x) || x == stss@[i as int]) by {
                if before.contains(x) {
                    let k = before.index_of(x);
                    assert(after[k] == x);
                }
                if x == stss@[i as int] {
                    assert(after[i as int] == x);
                }
                if after.contains(x) {
                    let k = after.index_of(x);
                    if k < i {
                        assert(before[k] == x);
                    }
                }
            }
        }
        i += 1;
    }
    proof { assert(stss@.subrange(0, i as int) =~= stss@); }
    s
}

/// Expands the sample tables of a track, behind what is in `out`.
pub fn expand_samples(t: &Track, track_idx: u32, out: &mut Vec<SampleRef>) -> (r: Result<()>)
    ensures
        (final(out)@, r) == expanded(t@, track_idx, old(out)@),
{
    let n: usize = t.stsz.len();
    let place = place_samples(t);
    let deltas = run_values(&t.stts, n);
    let offsets = run_values(&t.ctts, n);
    let all_sync = t.stss.len() == 0;
    let syncs = sync_set(&t.stss);
    let shift: i64 = elst_leading_media_time(t);
    let ghost m = t@;
    let mut time: i64 = 0;
    let mut before: u64 = 0;
    let mut i: usize = 0;
    while i < n
        invariant
            i <= n,
            m == t@,
            n == t.stsz@.len(),
            place@ == placement(m.stsc, m.chunk_offsets.len(), m.stsz.len()),
            place@.len() == n,
            consecutive(place@),
            deltas@ == Seq::new(n as nat, |k: int| run_value(m.stts, k)),
            offsets@ == Seq::new(n as nat, |k: int| run_value(m.ctts, k)),
            all_sync == (m.stss.len() == 0),
            forall|x: u32| syncs@.contains(x) <==> m.stss.contains(x),
            shift == leading_media_time(m.elst),
            time == wrap64(decode_time(m.stts, i as int)),
            i > 0 ==> before == wrap_u64(sum_sizes(m.stsz, i - 1 - place@[i - 1].1, i - 1)),
            expanded(m, track_idx, old(out)@) == expand_from(m, track_idx, place@, i as int, out@),
        decreases n - i,
    {
        broadcast use vstd::std_specs::hash::group_hash_axioms;

        let (chunk, within) = place[i];
        if chunk == 0 || chunk as u64 > t.chunk_offsets.len() as u64 {
            return Err(Error::InvalidData(Detail::ChunkOutOfRange { chunk, track: track_idx }));
        }
        proof { lemma_within(place@, i as int); }
        if within == 0 {
            before = 0;
        } else {
            proof {
                lemma_wrap_u64_add(sum_sizes(m.stsz, i - 1 - place@[i - 1].1, i - 1), m.stsz[i - 1] as int);
            }
            before = wrapped_add_u64(before, t.stsz[i - 1] as u64);
        }
        assert(before == wrap_u64(sum_sizes(m.stsz, i - within, i as int)));
        proof { lemma_wrap_u64_add(sum_sizes(m.stsz, i - within, i as int), m.chunk_offsets[chunk - 1] as int); }
        let offset: u64 = wrapped_add_u64(before, t.chunk_offsets[(chunk - 1) as usize]);
        let delta: u32 = match deltas[i] {
            Some(d) => d,
            None => 0,
        };
        let shown: i32 = match offsets[i] {
            Some(d) => d,
            None => 0,
        };
        let number: u32 = length32(i, 1);
        let s = SampleRef {
            track_idx,
            offset,
            size: t.stsz[i],
            pts: clamped_sub(clamped_add(time, shown as i64), shift),
            dts: clamped_sub(time, shift),
            duration: delta as i64,
            keyframe: all_sync || syncs.contains(&number),
        };
        assert(s == sample_at(m, track_idx, place@, i as int));
        out.push(s);
        proof { lemma_wrap64_add(decode_time(m.stts, i as int), delta as int); }
        time = wrapped_add(time, delta as i64);
        i += 1;
    }
    Ok(())
}

/// The expansion of a track keeps what was there and adds one sample for each size, or fewer
/// where it fails; each of them is the sample that the tables describe.
pub proof fn law_expand_appends(t: TrackModel, track_idx: u32, p: Seq<(u32, u32)>, i: int, acc: Seq<SampleRef>)
    requires
        0 <= i <= t.stsz.len(),
    ensures
        ({
            let (out, r) = expand_from(t, track_idx, p, i, acc);
            &&& acc.len() <= out.len() <= acc.len() + t.stsz.len() - i
            &&& r is Ok ==> out.len() == acc.len() + t.stsz.len() - i
            &&& out.subrange(0, acc.len() as int) == acc
            &&& forall|k: int|
                acc.len() <= k < out.len() ==> #[trigger] out[k] == sample_at(t, track_idx, p, i + k - acc.len())
        }),
    decreases t.stsz.len() - i,
{
    let (out, r) = expand_from(t, track_idx, p, i, acc);
    if i < t.stsz.len() && p[i].0 != 0 && p[i].0 <= t.chunk_offsets.len() {
        let x = sample_at(t, track_idx, p, i);
        law_expand_appends(t, track_idx, p, i + 1, acc.push(x));
        assert(out.subrange(0, acc.len() as int) =~= acc) by {
            assert(out.subrange(0, acc.len() as int + 1) == acc.push(x));
            assert forall|k: int| 0 <= k < acc.len() implies out[k] == acc[k] by {
                assert(out.subrange(0, acc.len() as int + 1)[k] == acc.push(x)[k]);
            }
        }
        assert forall|k: int| acc.len() <= k < out.len() implies #[trigger] out[k] == sample_at(
            t,
            track_idx,
            p,
            i + k - acc.len(),
        ) by {
            if k == acc.len() {
                assert(out.subrange(0, acc.len() as int + 1)[k] == acc.push(x)[k]);
            }
        }
    } else {
        assert(out.subrange(0, acc.len() as int) =~= acc);
    }
}

/// A sample that is not the first in its chunk starts where the one before it ends.
pub proof fn law_chunk_contiguous(t: TrackModel, p: Seq<(u32, u32)>, i: int)
    requires
        consecutive(p),
        0 < i < p.len(),
        p[i].1 > 0,
    ensures
        sample_offset(t, p, i) == wrap_u64(sample_offset(t, p, i - 1) + t.stsz[i - 1]),
{
    lemma_within(p, i);
    let base = t.chunk_offsets[p[i].0 - 1] as int;
    let start = i - p[i].1;
    assert(sum_sizes(t.stsz, start, i) == sum_sizes(t.stsz, start, i - 1) + t.stsz[i - 1]);
    lemma_wrap_u64_add(base + sum_sizes(t.stsz, start, i - 1), t.stsz[i - 1] as int);
}

/// The samples of every track are placed in chunks one after the other.
pub proof fn law_placement(stsc: Seq<(u32, u32, u32)>, chunks: nat, n: nat)
    ensures
        placement(stsc, chunks, n).len() == n,
        consecutive(placement(stsc, chunks, n)),
{
    lemma_place_runs(stsc, 0, chunks, 1, n, Seq::empty());
}

proof fn lemma_place_run(ch: u32, end: u32, spc: u32, n: nat, acc: Seq<(u32, u32)>)
    requires
        acc.len() <= n,
        consecutive(acc),
    ensures
        place_run(ch, end, spc, n, acc).0.len() <= n,
        consecutive(place_run(ch, end, spc, n, acc).0),
    decreases end - ch,
{
    if ch < end && acc.len() < n {
        let k = if spc < n - acc.len() { spc as nat } else { (n - acc.len()) as nat };
        lemma_fill(acc, ch, k);
        lemma_place_run((ch + 1) as u32, end, spc, n, acc + chunk_fill(ch, k));
    }
}

proof fn lemma_place_runs(stsc: Seq<(u32, u32, u32)>, e: int, chunks: nat, ch: u32, n: nat, acc: Seq<(u32, u32)>)
    requires
        acc.len() <= n,
        consecutive(acc),
    ensures
        place_runs(stsc, e, chunks, ch, n, acc).len() <= n,
        consecutive(place_runs(stsc, e, chunks, ch, n, acc)),
    decreases stsc.len() - e,
{
    if e < stsc.len() {
        let first = if ch > stsc[e].0 { ch } else { stsc[e].0 };
        lemma_place_run(first, run_end(stsc, e, chunks), stsc[e].1, n, acc);
        let (acc2, next) = place_run(first, run_end(stsc, e, chunks), stsc[e].1, n, acc);
        lemma_place_runs(stsc, e + 1, chunks, next, n, acc2);
    }
}

/// Decode times do not descend.
pub proof fn law_decode_times_ascend(stts: Seq<(u32, u32)>, i: int, j: int)
    requires
        0 <= i <= j,
    ensures
        0 <= decode_time(stts, i) <= decode_time(stts, j),
    decreases j,
{
    if i < j {
        law_decode_times_ascend(stts, i, j - 1);
    } else if i > 0 {
        law_decode_times_ascend(stts, i - 1, j - 1);
    }
}

}
