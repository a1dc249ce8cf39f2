//! Where a seek goes to: by random access points, by segment indexes, and by keyframes.
use vstd::prelude::*;
use crate::demux::DemuxModel;
use crate::error::{Detail, Error};
use crate::index::{SidxModel, TfraModel};
use crate::samples::SampleRef;
use crate::seek::{
    best_key, count_not_after, first_key, index_time, indexes_from, law_seek_finds_keyframe, lemma_count_not_after,
    lemma_first_key, references_from, seek_of, sidx_goal, sidx_target, stream_points, tfra_goal, tfra_index,
    tfra_target, SidxHit,
};

verus! {

/// When the `k`th reference of an index starts, in its timescale: behind the media that the references before
/// it are to. Those to other indexes take no time.
pub open spec fn reference_time(s: SidxModel, k: int) -> int
    decreases k,
{
    if k <= 0 {
        s.earliest_presentation_time as int
    } else {
        reference_time(s, k - 1) + (if s.references[k - 1].is_sidx {
            0
        } else {
            s.references[k - 1].subsegment_duration as int
        })
    }
}

/// Where in the file the `k`th reference of an index is to: behind what the references before it are to.
pub open spec fn reference_place(s: SidxModel, k: int) -> int
    decreases k,
{
    if k <= 0 {
        s.first_byte_offset as int
    } else {
        reference_place(s, k - 1) + s.references[k - 1].referenced_size
    }
}

/// Whether an index is one of the track, and has a timescale.
pub open spec fn indexes_track(s: SidxModel, track_id: u32) -> bool {
    s.reference_id == track_id && s.timescale > 0
}

/// Whether the `k`th reference of an index is to media that does not start after a time of a track with
/// `scale` units in a second.
pub open spec fn starts_by(s: SidxModel, k: int, time: int, scale: u32) -> bool {
    !s.references[k].is_sidx && reference_time(s, k) * scale <= time * s.timescale
}

/// Whether the times and places of an index fit in 64 bits, and so does a time put into its timescale.
pub open spec fn index_fits(s: SidxModel, time: int, scale: u32) -> bool {
    &&& reference_time(s, s.references.len() as int) <= u64::MAX
    &&& reference_place(s, s.references.len() as int) <= u64::MAX
    &&& time * s.timescale <= u64::MAX * scale
}

/// The time that is sought in a stream: at least 0.
pub open spec fn sought(pts: i64) -> int {
    if pts < 0 { 0 } else { pts as int }
}

proof fn lemma_times_grow(s: SidxModel, a: int, b: int)
    requires
        0 <= a <= b,
    ensures
        0 <= reference_time(s, a) <= reference_time(s, b),
        0 <= reference_place(s, a) <= reference_place(s, b),
    decreases b,
{
    if a < b {
        lemma_times_grow(s, a, b - 1);
    } else if a > 0 {
        lemma_times_grow(s, a - 1, b - 1);
    }
}

proof fn lemma_index_time(pts: u64, from: u32, to: u32, time: int)
    requires
        from > 0,
        to > 0,
        pts * to <= u64::MAX * from,
        0 <= time,
    ensures
        time <= index_time(pts, from, to) <==> time * from <= pts * to,
{
    let p = pts as int * to as int;
    let f = from as int;
    let q = p / f;
    if from == to {
        assert(time <= pts <==> time * from <= pts * to) by (nonlinear_arith)
            requires from == to, to > 0;
    } else {
        assert(0 <= p) by (nonlinear_arith)
            requires p == pts as int * to as int;
        assert(0 <= q <= u64::MAX && q * f <= p < (q + 1) * f) by (nonlinear_arith)
            requires q == p / f, f > 0, 0 <= p, p <= u64::MAX * f;
        assert(index_time(pts, from, to) == q);
        assert(time <= q <==> time * f <= p) by (nonlinear_arith)
            requires q * f <= p, p < (q + 1) * f, f > 0;
    }
}

/// What the references from the `i`th on add to what has been found, where the `k`th is the last that does not
/// start after what is wanted, or none does where there is no such.
proof fn lemma_references(s: SidxModel, i: int, wanted: u64, hit: SidxHit, last: Option<int>)
    requires
        0 <= i <= s.references.len(),
        reference_time(s, s.references.len() as int) <= u64::MAX,
        reference_place(s, s.references.len() as int) <= u64::MAX,
        match last {
            Some(k) => {
                &&& i <= k < s.references.len()
                &&& !s.references[k].is_sidx
                &&& reference_time(s, k) <= wanted
                &&& forall|j: int|
                    k < j < s.references.len() && !(#[trigger] s.references[j]).is_sidx ==> reference_time(s, j) > wanted
            },
            None => forall|j: int|
                i <= j < s.references.len() && !(#[trigger] s.references[j]).is_sidx ==> reference_time(s, j) > wanted,
        },
    ensures
        references_from(
            s.references,
            i,
            reference_time(s, i) as u64,
            reference_place(s, i) as u64,
            wanted,
            hit,
        ).best == (match last {
            Some(k) => Some(reference_place(s, k) as u64),
            None => hit.best,
        }),
    decreases s.references.len() - i,
{
    let n = s.references.len() as int;
    lemma_times_grow(s, 0, i);
    lemma_times_grow(s, i, n);
    if i < n {
        let r = s.references[i];
        lemma_times_grow(s, i + 1, n);
        let next = SidxHit {
            best: if reference_time(s, i) <= wanted { Some(reference_place(s, i) as u64) } else { hit.best },
            first: if hit.first is None { Some(reference_place(s, i) as u64) } else { hit.first },
        };
        if last == Some(i) {
            lemma_references(s, i + 1, wanted, next, None);
        } else if r.is_sidx {
            lemma_references(s, i + 1, wanted, hit, last);
        } else {
            lemma_references(s, i + 1, wanted, next, last);
        }
    }
}

/// What the references from the `i`th on add to the first place that has been found.
proof fn lemma_first_place(s: SidxModel, i: int, wanted: u64, hit: SidxHit, k: int)
    requires
        0 <= i <= s.references.len(),
        reference_time(s, s.references.len() as int) <= u64::MAX,
        reference_place(s, s.references.len() as int) <= u64::MAX,
        i <= k <= s.references.len(),
        k < s.references.len() ==> !s.references[k].is_sidx,
        forall|j: int| i <= j < k ==> (#[trigger] s.references[j]).is_sidx,
    ensures
        references_from(
            s.references,
            i,
            reference_time(s, i) as u64,
            reference_place(s, i) as u64,
            wanted,
            hit,
        ).first == (if hit.first is None && k < s.references.len() {
            Some(reference_place(s, k) as u64)
        } else {
            hit.first
        }),
    decreases s.references.len() - i,
{
    let n = s.references.len() as int;
    lemma_times_grow(s, 0, i);
    lemma_times_grow(s, i, n);
    if i < n {
        let r = s.references[i];
        lemma_times_grow(s, i + 1, n);
        let next = SidxHit {
            best: if reference_time(s, i) <= wanted { Some(reference_place(s, i) as u64) } else { hit.best },
            first: if hit.first is None { Some(reference_place(s, i) as u64) } else { hit.first },
        };
        if r.is_sidx {
            lemma_first_place(s, i + 1, wanted, hit, k);
        } else {
            lemma_kept_first(s, i + 1, wanted, next);
        }
    }
}

proof fn lemma_kept_first(s: SidxModel, i: int, wanted: u64, hit: SidxHit)
    requires
        0 <= i <= s.references.len(),
        reference_time(s, s.references.len() as int) <= u64::MAX,
        reference_place(s, s.references.len() as int) <= u64::MAX,
        hit.first is Some,
    ensures
        references_from(
            s.references,
            i,
            reference_time(s, i) as u64,
            reference_place(s, i) as u64,
            wanted,
            hit,
        ).first == hit.first,
    decreases s.references.len() - i,
{
    let n = s.references.len() as int;
    lemma_times_grow(s, 0, i);
    lemma_times_grow(s, i, n);
    if i < n {
        lemma_times_grow(s, i + 1, n);
        let next = SidxHit {
            best: if reference_time(s, i) <= wanted { Some(reference_place(s, i) as u64) } else { hit.best },
            first: hit.first,
        };
        if s.references[i].is_sidx {
            lemma_kept_first(s, i + 1, wanted, hit);
        } else {
            lemma_kept_first(s, i + 1, wanted, next);
        }
    }
}

/// Whether no reference of the indexes of a track behind the `k`th of the `x`th is to media that does not
/// start after a time.
pub open spec fn none_later(sidxes: Seq<SidxModel>, track_id: u32, scale: u32, time: int, x: int, k: int) -> bool {
    forall|y: int, j: int|
        #![trigger sidxes[y].references[j]]
        0 <= y < sidxes.len() && indexes_track(sidxes[y], track_id) && 0 <= j < sidxes[y].references.len() && (y > x || (
        y == x && j > k)) ==> !starts_by(sidxes[y], j, time, scale)
}

/// Whether no reference of the indexes of a track from the `x`th on is to media that does not start after a
/// time.
pub open spec fn none_from(sidxes: Seq<SidxModel>, track_id: u32, scale: u32, time: int, x: int) -> bool {
    forall|y: int, j: int|
        #![trigger sidxes[y].references[j]]
        x <= y < sidxes.len() && indexes_track(sidxes[y], track_id) && 0 <= j < sidxes[y].references.len()
            ==> !starts_by(sidxes[y], j, time, scale)
}

proof fn lemma_indexes(
    sidxes: Seq<SidxModel>,
    i: int,
    track_id: u32,
    scale: u32,
    pts: u64,
    hit: SidxHit,
    last: Option<(int, int)>,
)
    requires
        0 <= i <= sidxes.len(),
        scale > 0,
        forall|y: int|
            0 <= y < sidxes.len() && indexes_track(#[trigger] sidxes[y], track_id) ==> index_fits(
                sidxes[y],
                pts as int,
                scale,
            ),
        match last {
            Some((x, k)) => {
                &&& i <= x < sidxes.len()
                &&& indexes_track(sidxes[x], track_id)
                &&& 0 <= k < sidxes[x].references.len()
                &&& starts_by(sidxes[x], k, pts as int, scale)
                &&& none_later(sidxes, track_id, scale, pts as int, x, k)
            },
            None => none_from(sidxes, track_id, scale, pts as int, i),
        },
    ensures
        indexes_from(sidxes, i, track_id, scale, pts, hit).best == (match last {
            Some((x, k)) => Some(reference_place(sidxes[x], k) as u64),
            None => hit.best,
        }),
    decreases sidxes.len() - i,
{
    if i < sidxes.len() {
        let s = sidxes[i];
        if indexes_track(s, track_id) && s.references.len() > 0 {
            let wanted = index_time(pts, scale, s.timescale);
            assert(index_fits(s, pts as int, scale));
            assert forall|j: int| 0 <= j < s.references.len() implies (reference_time(s, j) <= wanted <==> #[trigger] reference_time(s, j)
                * scale <= pts * s.timescale) by {
                lemma_times_grow(s, 0, j);
                lemma_index_time(pts, scale, s.timescale, reference_time(s, j));
            }
            let here = match last {
                Some((x, k)) if x == i => Some(k),
                _ => None,
            };
            let from: int = match last {
                Some((x, k)) if x == i => k,
                Some((x, k)) => s.references.len() as int,
                None => -1,
            };
            match last {
                Some((x, k)) if x > i => {
                    let after = references_from(
                        s.references,
                        0,
                        s.earliest_presentation_time,
                        s.first_byte_offset,
                        wanted,
                        hit,
                    );
                    lemma_indexes(sidxes, i + 1, track_id, scale, pts, after, last);
                },
                _ => {
                    assert forall|j: int| from < j < s.references.len() && !(#[trigger] s.references[j]).is_sidx implies reference_time(
                        s,
                        j,
                    ) > wanted by {
                        assert(!starts_by(sidxes[i], j, pts as int, scale)) by {
                            assert(sidxes[i].references[j] == s.references[j]);
                        }
                        assert(reference_time(s, j) * scale > pts * s.timescale);
                    }
                    lemma_references(s, 0, wanted, hit, here);
                    let after = references_from(
                        s.references,
                        0,
                        s.earliest_presentation_time,
                        s.first_byte_offset,
                        wanted,
                        hit,
                    );
                    assert(none_from(sidxes, track_id, scale, pts as int, i + 1));
                    lemma_indexes(sidxes, i + 1, track_id, scale, pts, after, None);
                },
            }
        } else {
            lemma_indexes(sidxes, i + 1, track_id, scale, pts, hit, last);
        }
    }
}

/// Whether a sample is a keyframe of a stream that does not start before a place in the file.
pub open spec fn lands(s: SampleRef, stream_index: u32, place: int) -> bool {
    s.track_idx == stream_index && s.keyframe && s.offset >= place
}

/// Whether a seek goes to the first keyframe of the stream that does not start before a place in the file,
/// wherever there is one.
pub open spec fn goes_to(m: DemuxModel, stream_index: u32, pts: i64, place: int) -> bool {
    forall|i: int|
        0 <= i < m.samples.len() && lands(#[trigger] m.samples[i], stream_index, place) && (forall|j: int|
            0 <= j < i ==> !lands(#[trigger] m.samples[j], stream_index, place)) ==> seek_of(m, stream_index, pts) == Ok::<
            int,
            Error,
        >(i)
}

/// Whether the stream exists and its track has a timescale.
pub open spec fn has_times(m: DemuxModel, stream_index: u32) -> bool {
    &&& m.wf()
    &&& stream_index < m.streams.len()
    &&& m.track_timescales[stream_index as int] > 0
}

/// Whether the file lists no random access points for the track of a stream.
pub open spec fn without_points(m: DemuxModel, stream_index: u32) -> bool {
    forall|y: int|
        0 <= y < m.tfras.len() ==> (#[trigger] m.tfras[y]).track_id != m.track_ids[stream_index as int]
}

/// Whether a time and what the indexes of the track of a stream say of it fit in 64 bits.
pub open spec fn indexes_fit(m: DemuxModel, stream_index: u32, pts: i64) -> bool {
    forall|y: int|
        0 <= y < m.sidxes.len() && indexes_track(#[trigger] m.sidxes[y], m.track_ids[stream_index as int]) ==> index_fits(
            m.sidxes[y],
            sought(pts),
            m.track_timescales[stream_index as int],
        )
}

/// Whether the `k`th reference of the `x`th index is the last, of those of all indexes of the track of a
/// stream, to media that does not start after a time.
pub open spec fn last_by(m: DemuxModel, stream_index: u32, pts: i64, x: int, k: int) -> bool {
    let id = m.track_ids[stream_index as int];
    let scale = m.track_timescales[stream_index as int];
    &&& 0 <= x < m.sidxes.len()
    &&& indexes_track(m.sidxes[x], id)
    &&& 0 <= k < m.sidxes[x].references.len()
    &&& starts_by(m.sidxes[x], k, sought(pts), scale)
    &&& none_later(m.sidxes, id, scale, sought(pts), x, k)
}

proof fn lemma_goes_to(m: DemuxModel, stream_index: u32, pts: i64, place: u64)
    requires
        stream_index < m.streams.len(),
        tfra_goal(m, stream_index, pts) == Some(place) || (tfra_goal(m, stream_index, pts) is None && sidx_goal(
            m,
            stream_index,
            pts,
        ) == Some(place)),
    ensures
        goes_to(m, stream_index, pts, place as int),
{
    assert forall|i: int|
        0 <= i < m.samples.len() && lands(#[trigger] m.samples[i], stream_index, place as int) && (forall|j: int|
            0 <= j < i ==> !lands(#[trigger] m.samples[j], stream_index, place as int)) implies seek_of(
        m,
        stream_index,
        pts,
    ) == Ok::<int, Error>(i) by {
        lemma_first_key(m.samples, 0, stream_index, place);
        match first_key(m.samples, 0, stream_index, place) {
            Some(k) => {
                assert(lands(m.samples[k], stream_index, place as int));
                if i < k {
                    assert(lands(m.samples[i], stream_index, place as int));
                }
            },
            None => {
                assert(lands(m.samples[i], stream_index, place as int));
            },
        }
    }
}

/// What the indexes of a stream give for a time: where the last of their references to media that does not
/// start after it is to. A reference starts behind the media that those before it are to, and what it is to
/// is behind what those before it are to.
pub proof fn law_sidx_target(m: DemuxModel, stream_index: u32, pts: i64, x: int, k: int)
    requires
        has_times(m, stream_index),
        indexes_fit(m, stream_index, pts),
        last_by(m, stream_index, pts, x, k),
    ensures
        sidx_target(m, stream_index, pts) matches Some(place) && place == reference_place(m.sidxes[x], k),
        sidx_goal(m, stream_index, pts) matches Some(place) && place == reference_place(m.sidxes[x], k),
{
    let s = m.sidxes[x];
    lemma_indexes(
        m.sidxes,
        0,
        m.track_ids[stream_index as int],
        m.track_timescales[stream_index as int],
        sought(pts) as u64,
        SidxHit { best: None, first: None },
        Some((x, k)),
    );
    lemma_times_grow(s, 0, k);
    lemma_times_grow(s, k, s.references.len() as int);
}

/// The indexes of a stream give nothing for a time that is before all media that they have references to.
pub proof fn law_sidx_target_none(m: DemuxModel, stream_index: u32, pts: i64)
    requires
        has_times(m, stream_index),
        indexes_fit(m, stream_index, pts),
        none_from(m.sidxes, m.track_ids[stream_index as int], m.track_timescales[stream_index as int], sought(pts), 0),
    ensures
        sidx_target(m, stream_index, pts) is None,
{
    lemma_indexes(
        m.sidxes,
        0,
        m.track_ids[stream_index as int],
        m.track_timescales[stream_index as int],
        sought(pts) as u64,
        SidxHit { best: None, first: None },
        None,
    );
}

/// Without random access points a seek goes to the first keyframe in the subsegment that the time is in, or
/// behind it: at or behind where the last reference to media is to that does not start after the time.
pub proof fn law_seek_by_subsegment(m: DemuxModel, stream_index: u32, pts: i64, x: int, k: int)
    requires
        has_times(m, stream_index),
        without_points(m, stream_index),
        indexes_fit(m, stream_index, pts),
        last_by(m, stream_index, pts, x, k),
    ensures
        goes_to(m, stream_index, pts, reference_place(m.sidxes[x], k)),
{
    law_sidx_target(m, stream_index, pts, x, k);
    lemma_no_points(m, stream_index, pts);
    lemma_goes_to(m, stream_index, pts, sidx_goal(m, stream_index, pts)->Some_0);
}

/// An index whose references are all to media, and that is the only one of its track: a time within its
/// `k`th subsegment goes to the first keyframe at or behind where that subsegment is.
pub proof fn law_seek_within_subsegment(m: DemuxModel, stream_index: u32, pts: i64, x: int, k: int)
    requires
        has_times(m, stream_index),
        without_points(m, stream_index),
        indexes_fit(m, stream_index, pts),
        0 <= x < m.sidxes.len(),
        forall|y: int|
            0 <= y < m.sidxes.len() && y != x ==> (#[trigger] m.sidxes[y]).reference_id != m.track_ids[stream_index as int],
        indexes_track(m.sidxes[x], m.track_ids[stream_index as int]),
        forall|j: int| 0 <= j < m.sidxes[x].references.len() ==> !(#[trigger] m.sidxes[x].references[j]).is_sidx,
        0 <= k < m.sidxes[x].references.len(),
        ({
            let scale = m.track_timescales[stream_index as int];
            let time = sought(pts) * m.sidxes[x].timescale;
            &&& reference_time(m.sidxes[x], k) * scale <= time
            &&& time < (reference_time(m.sidxes[x], k) + m.sidxes[x].references[k].subsegment_duration) * scale
        }),
    ensures
        sidx_target(m, stream_index, pts) matches Some(place) && place == reference_place(m.sidxes[x], k),
        goes_to(m, stream_index, pts, reference_place(m.sidxes[x], k)),
{
    let s = m.sidxes[x];
    let id = m.track_ids[stream_index as int];
    let scale = m.track_timescales[stream_index as int];
    let time = sought(pts) * s.timescale;
    assert forall|y: int, j: int|
        #![trigger m.sidxes[y].references[j]]
        0 <= y < m.sidxes.len() && indexes_track(m.sidxes[y], id) && 0 <= j < m.sidxes[y].references.len() && (y > x || (y
            == x && j > k)) implies !starts_by(m.sidxes[y], j, sought(pts), scale) by {
        assert(y == x);
        lemma_times_grow(s, k + 1, j);
        let a = reference_time(s, k + 1);
        let b = reference_time(s, j);
        let c = scale as int;
        assert(a == reference_time(s, k) + s.references[k].subsegment_duration);
        assert(time < b * c) by (nonlinear_arith)
            requires time < a * c, a <= b, c > 0;
    }
    assert(last_by(m, stream_index, pts, x, k));
    law_sidx_target(m, stream_index, pts, x, k);
    law_seek_by_subsegment(m, stream_index, pts, x, k);
}

proof fn lemma_tfra_index(tfras: Seq<TfraModel>, id: u32, x: int)
    requires
        0 <= x <= tfras.len(),
        x < tfras.len() ==> tfras[x].track_id == id,
        forall|y: int| 0 <= y < x ==> (#[trigger] tfras[y]).track_id != id,
    ensures
        tfra_index(tfras, id) == x,
    decreases tfras.len(),
{
    if x > 0 {
        let rest = tfras.drop_first();
        assert(tfras[0].track_id != id);
        assert forall|y: int| 0 <= y < x - 1 implies (#[trigger] rest[y]).track_id != id by {
            assert(rest[y] == tfras[y + 1]);
        }
        if x < tfras.len() {
            assert(rest[x - 1] == tfras[x]);
        }
        lemma_tfra_index(rest, id, x - 1);
    }
}

proof fn lemma_no_points(m: DemuxModel, stream_index: u32, pts: i64)
    requires
        m.wf(),
        stream_index < m.streams.len(),
        without_points(m, stream_index),
    ensures
        tfra_goal(m, stream_index, pts) is None,
{
    lemma_tfra_index(m.tfras, m.track_ids[stream_index as int], m.tfras.len() as int);
    assert(stream_points(m, stream_index).len() == 0);
}

/// Whether the `x`th list of random access points is the first for the track of a stream.
pub open spec fn lists_points(m: DemuxModel, stream_index: u32, x: int) -> bool {
    let id = m.track_ids[stream_index as int];
    &&& m.wf()
    &&& stream_index < m.streams.len()
    &&& 0 <= x < m.tfras.len()
    &&& m.tfras[x].track_id == id
    &&& forall|y: int| 0 <= y < x ==> (#[trigger] m.tfras[y]).track_id != id
}

/// The last random access point of a stream that is not after a time is its target, and a seek goes to the
/// first keyframe at or behind the movie fragment that it is in. Segment indexes do not matter then.
pub proof fn law_seek_by_point(m: DemuxModel, stream_index: u32, pts: i64, x: int, e: int)
    requires
        lists_points(m, stream_index, x),
        0 <= e < m.tfras[x].entries.len(),
        m.tfras[x].entries[e].time <= pts,
        forall|j: int| e < j < m.tfras[x].entries.len() ==> (#[trigger] m.tfras[x].entries[j]).time > pts,
    ensures
        tfra_target(m, stream_index, pts) == Some(m.tfras[x].entries[e]),
        goes_to(m, stream_index, pts, m.tfras[x].entries[e].moof_offset as int),
{
    let entries = m.tfras[x].entries;
    lemma_tfra_index(m.tfras, m.track_ids[stream_index as int], x);
    lemma_count_not_after(entries, pts as int, entries.len() as int);
    let n = count_not_after(entries, pts as int, entries.len() as int);
    if n > e + 1 {
        assert(entries[n - 1].time <= pts);
    }
    if n <= e {
        assert(entries[e].time > pts);
    }
    lemma_goes_to(m, stream_index, pts, entries[e].moof_offset);
}

/// For a time before all random access points of a stream there is no target, and a seek goes to the first
/// keyframe at or behind the movie fragment of the first of them.
pub proof fn law_seek_before_points(m: DemuxModel, stream_index: u32, pts: i64, x: int)
    requires
        lists_points(m, stream_index, x),
        m.tfras[x].entries.len() > 0,
        forall|j: int| 0 <= j < m.tfras[x].entries.len() ==> (#[trigger] m.tfras[x].entries[j]).time > pts,
    ensures
        tfra_target(m, stream_index, pts) is None,
        goes_to(m, stream_index, pts, m.tfras[x].entries[0].moof_offset as int),
{
    let entries = m.tfras[x].entries;
    lemma_tfra_index(m.tfras, m.track_ids[stream_index as int], x);
    lemma_count_not_after(entries, pts as int, entries.len() as int);
    lemma_goes_to(m, stream_index, pts, entries[0].moof_offset);
}

proof fn lemma_first_of_indexes(
    sidxes: Seq<SidxModel>,
    i: int,
    track_id: u32,
    scale: u32,
    pts: u64,
    hit: SidxHit,
    x: int,
    k: int,
)
    requires
        0 <= i <= x < sidxes.len(),
        scale > 0,
        hit.first is None,
        forall|y: int|
            0 <= y < sidxes.len() && indexes_track(#[trigger] sidxes[y], track_id) ==> index_fits(
                sidxes[y],
                pts as int,
                scale,
            ),
        indexes_track(sidxes[x], track_id),
        0 <= k < sidxes[x].references.len(),
        !sidxes[x].references[k].is_sidx,
        forall|y: int, j: int|
            #![trigger sidxes[y].references[j]]
            0 <= y < sidxes.len() && indexes_track(sidxes[y], track_id) && 0 <= j < sidxes[y].references.len() && (y < x || (
            y == x && j < k)) ==> sidxes[y].references[j].is_sidx,
    ensures
        indexes_from(sidxes, i, track_id, scale, pts, hit).first == Some(reference_place(sidxes[x], k) as u64),
    decreases sidxes.len() - i,
{
    let s = sidxes[i];
    if indexes_track(s, track_id) && s.references.len() > 0 {
        assert(index_fits(s, pts as int, scale));
        let wanted = index_time(pts, scale, s.timescale);
        let after = references_from(
            s.references,
            0,
            s.earliest_presentation_time,
            s.first_byte_offset,
            wanted,
            hit,
        );
        if i == x {
            assert forall|j: int| 0 <= j < k implies (#[trigger] s.references[j]).is_sidx by {
                assert(sidxes[i].references[j].is_sidx);
            }
            lemma_first_place(s, 0, wanted, hit, k);
            lemma_indexes_keep_first(sidxes, i + 1, track_id, scale, pts, after);
        } else {
            assert forall|j: int| 0 <= j < s.references.len() implies (#[trigger] s.references[j]).is_sidx by {
                assert(sidxes[i].references[j].is_sidx);
            }
            lemma_first_place(s, 0, wanted, hit, s.references.len() as int);
            lemma_first_of_indexes(sidxes, i + 1, track_id, scale, pts, after, x, k);
        }
    } else {
        lemma_first_of_indexes(sidxes, i + 1, track_id, scale, pts, hit, x, k);
    }
}

proof fn lemma_indexes_keep_first(sidxes: Seq<SidxModel>, i: int, track_id: u32, scale: u32, pts: u64, hit: SidxHit)
    requires
        0 <= i <= sidxes.len(),
        hit.first is Some,
        forall|y: int|
            0 <= y < sidxes.len() && indexes_track(#[trigger] sidxes[y], track_id) ==> index_fits(
                sidxes[y],
                pts as int,
                scale,
            ),
    ensures
        indexes_from(sidxes, i, track_id, scale, pts, hit).first == hit.first,
    decreases sidxes.len() - i,
{
    if i < sidxes.len() {
        let s = sidxes[i];
        if indexes_track(s, track_id) && s.references.len() > 0 {
            assert(index_fits(s, pts as int, scale));
            let wanted = index_time(pts, scale, s.timescale);
            lemma_kept_first(s, 0, wanted, hit);
            let after = references_from(
                s.references,
                0,
                s.earliest_presentation_time,
                s.first_byte_offset,
                wanted,
                hit,
            );
            lemma_indexes_keep_first(sidxes, i + 1, track_id, scale, pts, after);
        } else {
            lemma_indexes_keep_first(sidxes, i + 1, track_id, scale, pts, hit);
        }
    }
}

/// Without random access points, and for a time before all media that the indexes of the stream have
/// references to, a seek goes to the first keyframe at or behind where the first of these is to.
pub proof fn law_seek_before_subsegments(m: DemuxModel, stream_index: u32, pts: i64, x: int, k: int)
    requires
        has_times(m, stream_index),
        without_points(m, stream_index),
        indexes_fit(m, stream_index, pts),
        none_from(m.sidxes, m.track_ids[stream_index as int], m.track_timescales[stream_index as int], sought(pts), 0),
        0 <= x < m.sidxes.len(),
        indexes_track(m.sidxes[x], m.track_ids[stream_index as int]),
        0 <= k < m.sidxes[x].references.len(),
        !m.sidxes[x].references[k].is_sidx,
        forall|y: int, j: int|
            #![trigger m.sidxes[y].references[j]]
            0 <= y < m.sidxes.len() && indexes_track(m.sidxes[y], m.track_ids[stream_index as int]) && 0 <= j
                < m.sidxes[y].references.len() && (y < x || (y == x && j < k)) ==> m.sidxes[y].references[j].is_sidx,
    ensures
        goes_to(m, stream_index, pts, reference_place(m.sidxes[x], k)),
{
    law_sidx_target_none(m, stream_index, pts);
    lemma_first_of_indexes(
        m.sidxes,
        0,
        m.track_ids[stream_index as int],
        m.track_timescales[stream_index as int],
        sought(pts) as u64,
        SidxHit { best: None, first: None },
        x,
        k,
    );
    lemma_no_points(m, stream_index, pts);
    let s = m.sidxes[x];
    assert(index_fits(s, sought(pts), m.track_timescales[stream_index as int]));
    lemma_times_grow(s, 0, k);
    lemma_times_grow(s, k, s.references.len() as int);
    lemma_goes_to(m, stream_index, pts, reference_place(s, k) as u64);
}

/// Whether a sample is a keyframe of a stream.
pub open spec fn starts_stream(s: SampleRef, stream_index: u32) -> bool {
    s.track_idx == stream_index && s.keyframe
}

/// Whether no index of the file says anything of a stream.
pub open spec fn not_indexed(m: DemuxModel, stream_index: u32) -> bool {
    &&& m.wf()
    &&& stream_index < m.streams.len()
    &&& without_points(m, stream_index)
    &&& forall|y: int|
        0 <= y < m.sidxes.len() ==> (#[trigger] m.sidxes[y]).reference_id != m.track_ids[stream_index as int]
}

proof fn lemma_not_indexed(sidxes: Seq<SidxModel>, i: int, track_id: u32, scale: u32, pts: u64, hit: SidxHit)
    requires
        0 <= i,
        forall|y: int| 0 <= y < sidxes.len() ==> (#[trigger] sidxes[y]).reference_id != track_id,
    ensures
        indexes_from(sidxes, i, track_id, scale, pts, hit) == hit,
    decreases sidxes.len() - i,
{
    if i < sidxes.len() {
        lemma_not_indexed(sidxes, i + 1, track_id, scale, pts, hit);
    }
}

proof fn lemma_no_goal(m: DemuxModel, stream_index: u32, pts: i64)
    requires
        not_indexed(m, stream_index),
    ensures
        tfra_goal(m, stream_index, pts) is None,
        sidx_goal(m, stream_index, pts) is None,
{
    lemma_no_points(m, stream_index, pts);
    lemma_not_indexed(
        m.sidxes,
        0,
        m.track_ids[stream_index as int],
        m.track_timescales[stream_index as int],
        sought(pts) as u64,
        SidxHit { best: None, first: None },
    );
}

/// Whether the `i`th sample is the keyframe that a time is sought at among the first `stop` samples: of those
/// shown latest the last.
pub open spec fn latest_before(samples: Seq<SampleRef>, stream_index: u32, stop: int, i: int) -> bool {
    &&& 0 <= i < stop
    &&& starts_stream(samples[i], stream_index)
    &&& forall|j: int|
        0 <= j < stop && starts_stream(#[trigger] samples[j], stream_index) ==> samples[j].pts <= samples[i].pts && (j > i
            ==> samples[j].pts < samples[i].pts)
}

proof fn lemma_best_before(samples: Seq<SampleRef>, i: int, stream_index: u32, pts: i64, best: Option<int>, stop: int, k: int)
    requires
        0 <= i <= stop <= samples.len(),
        stop < samples.len() ==> starts_stream(samples[stop], stream_index) && samples[stop].pts > pts,
        forall|j: int|
            0 <= j < stop && starts_stream(#[trigger] samples[j], stream_index) ==> samples[j].pts <= pts,
        latest_before(samples, stream_index, stop, k),
        best matches Some(b) ==> 0 <= b < i && starts_stream(samples[b], stream_index),
        k < i ==> best == Some(k),
    ensures
        best_key(samples, i, stream_index, pts, best) == Some(k),
    decreases stop - i,
{
    if i < stop {
        let s = samples[i];
        if !starts_stream(s, stream_index) {
            lemma_best_before(samples, i + 1, stream_index, pts, best, stop, k);
        } else {
            let next = match best {
                Some(b) if s.pts < samples[b].pts => best,
                _ => Some(i),
            };
            if i == k {
                if let Some(b) = best {
                    assert(samples[b].pts <= samples[k].pts);
                }
            }
            lemma_best_before(samples, i + 1, stream_index, pts, next, stop, k);
        }
    } else {
        assert(best_key(samples, stop, stream_index, pts, best) == best);
    }
}

/// Where no index says anything of a stream, a seek goes to the keyframe shown latest, of those in front of the
/// first that is shown after the time.
pub proof fn law_seek_by_keyframe(m: DemuxModel, stream_index: u32, pts: i64, stop: int, k: int)
    requires
        not_indexed(m, stream_index),
        0 <= stop <= m.samples.len(),
        stop < m.samples.len() ==> starts_stream(m.samples[stop], stream_index) && m.samples[stop].pts > pts,
        forall|j: int|
            0 <= j < stop && starts_stream(#[trigger] m.samples[j], stream_index) ==> m.samples[j].pts <= pts,
        latest_before(m.samples, stream_index, stop, k),
    ensures
        seek_of(m, stream_index, pts) == Ok::<int, Error>(k),
{
    lemma_no_goal(m, stream_index, pts);
    lemma_best_before(m.samples, 0, stream_index, pts, None, stop, k);
}

/// Where no index says anything of a stream, and its first keyframe is shown after the time, a seek goes to
/// that keyframe.
pub proof fn law_seek_before_keyframes(m: DemuxModel, stream_index: u32, pts: i64, k: int)
    requires
        not_indexed(m, stream_index),
        0 <= k < m.samples.len(),
        starts_stream(m.samples[k], stream_index),
        m.samples[k].pts > pts,
        forall|j: int| 0 <= j < k ==> !starts_stream(#[trigger] m.samples[j], stream_index),
    ensures
        seek_of(m, stream_index, pts) == Ok::<int, Error>(k),
{
    lemma_no_goal(m, stream_index, pts);
    lemma_none_best(m.samples, 0, stream_index, pts, k);
    lemma_first_key(m.samples, 0, stream_index, 0);
    match first_key(m.samples, 0, stream_index, 0) {
        Some(i) => {
            assert(starts_stream(m.samples[i], stream_index));
        },
        None => {
            assert(starts_stream(m.samples[k], stream_index));
        },
    }
}

proof fn lemma_none_best(samples: Seq<SampleRef>, i: int, stream_index: u32, pts: i64, k: int)
    requires
        0 <= i <= k < samples.len(),
        starts_stream(samples[k], stream_index),
        samples[k].pts > pts,
        forall|j: int| 0 <= j < k ==> !starts_stream(#[trigger] samples[j], stream_index),
    ensures
        best_key(samples, i, stream_index, pts, None) is None,
    decreases k - i,
{
    if i < k {
        assert(!starts_stream(samples[i], stream_index));
        lemma_none_best(samples, i + 1, stream_index, pts, k);
    }
}

/// A seek fails for a stream that the file does not have, and for one without keyframes, and says which.
pub proof fn law_seek_fails(m: DemuxModel, stream_index: u32, pts: i64)
    ensures
        stream_index >= m.streams.len() ==> seek_of(m, stream_index, pts) == Err::<int, Error>(
            Error::InvalidData(Detail::StreamOutOfRange(stream_index)),
        ),
        stream_index < m.streams.len() && (forall|j: int|
            0 <= j < m.samples.len() ==> !starts_stream(#[trigger] m.samples[j], stream_index)) ==> seek_of(
            m,
            stream_index,
            pts,
        ) == Err::<int, Error>(Error::NoKeyframe(stream_index)),
        stream_index < m.streams.len() && (exists|j: int|
            0 <= j < m.samples.len() && starts_stream(#[trigger] m.samples[j], stream_index)) ==> seek_of(
            m,
            stream_index,
            pts,
        ) is Ok,
{
    law_seek_finds_keyframe(m, stream_index, pts);
    if seek_of(m, stream_index, pts) is Ok {
        let i = seek_of(m, stream_index, pts)->Ok_0;
        assert(stream_index < m.streams.len() ==> starts_stream(m.samples[i], stream_index));
    } else if stream_index < m.streams.len() && exists|j: int|
        0 <= j < m.samples.len() && starts_stream(#[trigger] m.samples[j], stream_index) {
        let j = choose|j: int|
            0 <= j < m.samples.len() && starts_stream(#[trigger] m.samples[j], stream_index);
        assert(starts_stream(m.samples[j], stream_index));
    }
}

}
