//! Reading the packets of a demuxer, and seeking in it.
use vstd::prelude::*;
use crate::boxes::views;
use crate::cenc::PsshBox;
use crate::demux::{DemuxModel, Mp4Demuxer};
use crate::error::{Detail, Error, Result};
use crate::fragment::{MoofPsshRecord, SaiRecord, SencRecord};
use crate::index::{
    LevaEntry, PdinEntry, SidxModel, SidxRecord, SidxReference, SsixRecord, TfraEntry, TfraModel,
    TrepRecord,
};
use crate::numbers::{clamp_u64, clamped_add_u64, wrap_u64};
use crate::samples::SampleRef;
use crate::stream::StreamInfo;

verus! {

/// A packet, but for its data: where that is in the file, and what the packet says of it.
#[derive(Clone, Copy, Debug, PartialEq, Eq)]
pub struct PacketRef {
    pub stream_index: u32,
    /// How many units of time there are in a second.
    pub timescale: u32,
    pub offset: u64,
    pub size: u32,
    pub pts: i64,
    pub dts: i64,
    pub duration: i64,
    pub keyframe: bool,
}

/// The packet of a sample.
pub open spec fn packet_of(m: DemuxModel, s: SampleRef) -> PacketRef {
    PacketRef {
        stream_index: s.track_idx,
        timescale: m.streams[s.track_idx as int].timescale,
        offset: s.offset,
        size: s.size,
        pts: s.pts,
        dts: s.dts,
        duration: s.duration,
        keyframe: s.keyframe,
    }
}

/// The index of the first entry of the track with the given number, or how many there are.
pub open spec fn tfra_index(tfras: Seq<TfraModel>, id: u32) -> int
    decreases tfras.len(),
{
    if tfras.len() == 0 || tfras[0].track_id == id { 0 } else { 1 + tfra_index(tfras.drop_first(), id) }
}

/// How many of the first `n` random access points there are up to the last one that is not after the given
/// time.
pub open spec fn count_not_after(entries: Seq<TfraEntry>, time: int, n: int) -> int
    decreases n,
{
    if n <= 0 {
        0
    } else if entries[n - 1].time <= time {
        n
    } else {
        count_not_after(entries, time, n - 1)
    }
}

/// The random access points that the file lists for the track of a stream.
pub open spec fn stream_points(m: DemuxModel, stream_index: u32) -> Seq<TfraEntry> {
    if stream_index >= m.track_ids.len() {
        Seq::empty()
    } else {
        let i = tfra_index(m.tfras, m.track_ids[stream_index as int]);
        if i >= m.tfras.len() { Seq::empty() } else { m.tfras[i].entries }
    }
}

/// The last random access point of a stream that is not after a time, where there is one.
pub open spec fn tfra_target(m: DemuxModel, stream_index: u32, pts: i64) -> Option<TfraEntry> {
    let entries = stream_points(m, stream_index);
    let n = count_not_after(entries, pts as int, entries.len() as int);
    if n == 0 { None } else { Some(entries[n - 1]) }
}

/// Where to seek to for a time in a stream by its random access points: to the last that is not after it,
/// else to the first.
pub open spec fn tfra_goal(m: DemuxModel, stream_index: u32, pts: i64) -> Option<u64> {
    match tfra_target(m, stream_index, pts) {
        Some(e) => Some(e.moof_offset),
        None => {
            let entries = stream_points(m, stream_index);
            if entries.len() == 0 { None } else { Some(entries[0].moof_offset) }
        },
    }
}

/// What a walk over segment indexes has found: where the last subsegment that does not start after the
/// wanted time is, and where the first one is.
pub ghost struct SidxHit {
    pub best: Option<u64>,
    pub first: Option<u64>,
}

/// What the references of an index from the `i`th on add. Those to other indexes take bytes but no time.
pub open spec fn references_from(refs: Seq<SidxReference>, i: int, time: u64, offset: u64, wanted: u64, hit: SidxHit) -> SidxHit
    decreases refs.len() - i,
{
    if i >= refs.len() {
        hit
    } else {
        let r = refs[i];
        let next = clamp_u64(offset + r.referenced_size);
        if r.is_sidx {
            references_from(refs, i + 1, time, next, wanted, hit)
        } else {
            references_from(
                refs,
                i + 1,
                clamp_u64(time + r.subsegment_duration),
                next,
                wanted,
                SidxHit {
                    best: if time <= wanted { Some(offset) } else { hit.best },
                    first: if hit.first is None { Some(offset) } else { hit.first },
                },
            )
        }
    }
}

/// A time in the timescale of an index.
pub open spec fn index_time(pts: u64, from: u32, to: u32) -> u64 {
    if from == to { pts } else { wrap_u64(pts as int * to as int / from as int) }
}

/// What the indexes from the `i`th on add; those of other tracks, without references or without a
/// timescale are passed over.
pub open spec fn indexes_from(sidxes: Seq<SidxModel>, i: int, track_id: u32, scale: u32, pts: u64, hit: SidxHit) -> SidxHit
    decreases sidxes.len() - i,
{
    if i >= sidxes.len() {
        hit
    } else {
        let s = sidxes[i];
        if s.reference_id != track_id || s.references.len() == 0 || s.timescale == 0 {
            indexes_from(sidxes, i + 1, track_id, scale, pts, hit)
        } else {
            indexes_from(
                sidxes,
                i + 1,
                track_id,
                scale,
                pts,
                references_from(
                    s.references,
                    0,
                    s.earliest_presentation_time,
                    s.first_byte_offset,
                    index_time(pts, scale, s.timescale),
                    hit,
                ),
            )
        }
    }
}

/// What the segment indexes of the track of a stream say of a time.
pub open spec fn sidx_hit(m: DemuxModel, stream_index: u32, pts: i64) -> SidxHit {
    let k = stream_index as int;
    let nothing = SidxHit { best: None, first: None };
    if k >= m.track_ids.len() || k >= m.track_timescales.len() || m.track_timescales[k] == 0 {
        nothing
    } else {
        indexes_from(
            m.sidxes,
            0,
            m.track_ids[k],
            m.track_timescales[k],
            if pts < 0 { 0 } else { pts as u64 },
            nothing,
        )
    }
}

/// Where the last subsegment of a stream that does not start after a time is, where there is one.
pub open spec fn sidx_target(m: DemuxModel, stream_index: u32, pts: i64) -> Option<u64> {
    sidx_hit(m, stream_index, pts).best
}

/// Where to seek to for a time in a stream by the segment indexes of its track: to the last subsegment
/// that does not start after it, else to the first.
pub open spec fn sidx_goal(m: DemuxModel, stream_index: u32, pts: i64) -> Option<u64> {
    let hit = sidx_hit(m, stream_index, pts);
    if hit.best is Some { hit.best } else { hit.first }
}

/// Whether a sample is a keyframe of the stream.
pub open spec fn is_key(s: SampleRef, stream_index: u32) -> bool {
    s.track_idx == stream_index && s.keyframe
}

/// The first keyframe of the stream from the `i`th sample on that does not start before an offset, or
/// `None` where there is none.
pub open spec fn first_key(samples: Seq<SampleRef>, i: int, stream_index: u32, offset: u64) -> Option<int>
    decreases samples.len() - i,
{
    if i >= samples.len() {
        None
    } else if is_key(samples[i], stream_index) && samples[i].offset >= offset {
        Some(i)
    } else {
        first_key(samples, i + 1, stream_index, offset)
    }
}

/// The keyframe of the stream from the `i`th sample on with the latest time that is not after `pts`, or
/// `best` where that is later. The walk stops at the first keyframe that is shown after `pts`.
pub open spec fn best_key(samples: Seq<SampleRef>, i: int, stream_index: u32, pts: i64, best: Option<int>) -> Option<int>
    decreases samples.len() - i,
{
    if i >= samples.len() {
        best
    } else {
        let s = samples[i];
        if !is_key(s, stream_index) {
            best_key(samples, i + 1, stream_index, pts, best)
        } else if s.pts <= pts {
            best_key(
                samples,
                i + 1,
                stream_index,
                pts,
                match best {
                    Some(k) if s.pts < samples[k].pts => best,
                    _ => Some(i),
                },
            )
        } else {
            best
        }
    }
}

/// The first keyframe at the offset that an index gives, where it gives one.
pub open spec fn key_at(m: DemuxModel, stream_index: u32, target: Option<u64>) -> Option<int> {
    match target {
        Some(offset) => first_key(m.samples, 0, stream_index, offset),
        None => None,
    }
}

/// The sample that a seek goes to: by random access points, else by segment indexes, else the last
/// keyframe that is not after the time, else the first keyframe.
pub open spec fn seek_index(m: DemuxModel, stream_index: u32, pts: i64) -> Option<int> {
    let by_tfra = key_at(m, stream_index, tfra_goal(m, stream_index, pts));
    let by_sidx = key_at(m, stream_index, sidx_goal(m, stream_index, pts));
    let by_time = best_key(m.samples, 0, stream_index, pts, None);
    if by_tfra is Some {
        by_tfra
    } else if by_sidx is Some {
        by_sidx
    } else if by_time is Some {
        by_time
    } else {
        first_key(m.samples, 0, stream_index, 0)
    }
}

/// What a seek comes to: the sample it goes to, or why it fails.
pub open spec fn seek_of(m: DemuxModel, stream_index: u32, pts: i64) -> Result<int> {
    if stream_index >= m.streams.len() {
        Err(Error::InvalidData(Detail::StreamOutOfRange(stream_index)))
    } else {
        match seek_index(m, stream_index, pts) {
            Some(i) => Ok(i),
            None => Err(Error::NoKeyframe(stream_index)),
        }
    }
}

pub proof fn lemma_first_key(samples: Seq<SampleRef>, i: int, stream_index: u32, offset: u64)
    requires
        0 <= i <= samples.len(),
    ensures
        match first_key(samples, i, stream_index, offset) {
            Some(k) => {
                &&& i <= k < samples.len()
                &&& is_key(samples[k], stream_index)
                &&& samples[k].offset >= offset
                &&& forall|j: int| i <= j < k ==> !(is_key(#[trigger] samples[j], stream_index) && samples[j].offset >= offset)
            },
            None => forall|j: int|
                i <= j < samples.len() ==> !(is_key(#[trigger] samples[j], stream_index) && samples[j].offset >= offset),
        },
    decreases samples.len() - i,
{
    if i < samples.len() && !(is_key(samples[i], stream_index) && samples[i].offset >= offset) {
        lemma_first_key(samples, i + 1, stream_index, offset);
    }
}

proof fn lemma_best_key(samples: Seq<SampleRef>, i: int, stream_index: u32, pts: i64, best: Option<int>)
    requires
        0 <= i <= samples.len(),
        best matches Some(k) ==> 0 <= k < samples.len() && is_key(samples[k], stream_index) && samples[k].pts <= pts,
    ensures
        best_key(samples, i, stream_index, pts, best) matches Some(k) ==> 0 <= k < samples.len() && is_key(
            samples[k],
            stream_index,
        ) && samples[k].pts <= pts,
        best is Some ==> best_key(samples, i, stream_index, pts, best) is Some,
    decreases samples.len() - i,
{
    if i < samples.len() {
        let s = samples[i];
        if !is_key(s, stream_index) {
            lemma_best_key(samples, i + 1, stream_index, pts, best);
        } else if s.pts <= pts {
            let next = match best {
                Some(k) if s.pts < samples[k].pts => best,
                _ => Some(i),
            };
            lemma_best_key(samples, i + 1, stream_index, pts, next);
        }
    }
}

/// A seek goes to a keyframe of the stream. It fails only where the stream does not exist or has no
/// keyframe.
pub proof fn law_seek_finds_keyframe(m: DemuxModel, stream_index: u32, pts: i64)
    ensures
        match seek_of(m, stream_index, pts) {
            Ok(i) => 0 <= i < m.samples.len() && is_key(m.samples[i], stream_index),
            Err(_) => stream_index >= m.streams.len() || forall|j: int|
                0 <= j < m.samples.len() ==> !is_key(#[trigger] m.samples[j], stream_index),
        },
{
    if let Some(offset) = tfra_goal(m, stream_index, pts) {
        lemma_first_key(m.samples, 0, stream_index, offset);
    }
    if let Some(offset) = sidx_goal(m, stream_index, pts) {
        lemma_first_key(m.samples, 0, stream_index, offset);
    }
    lemma_best_key(m.samples, 0, stream_index, pts, None);
    lemma_first_key(m.samples, 0, stream_index, 0);
}

/// Whether the keyframes of a stream are shown in file order.
pub open spec fn keys_in_order(samples: Seq<SampleRef>, stream_index: u32) -> bool {
    forall|i: int, j: int|
        0 <= i < j < samples.len() && is_key(samples[i], stream_index) && is_key(samples[j], stream_index) ==> (
        #[trigger] samples[i]).pts <= (#[trigger] samples[j]).pts
}

proof fn lemma_best_is_last(samples: Seq<SampleRef>, i: int, stream_index: u32, pts: i64, best: Option<int>)
    requires
        0 <= i <= samples.len(),
        keys_in_order(samples, stream_index),
        best matches Some(k) ==> 0 <= k < i && is_key(samples[k], stream_index) && samples[k].pts <= pts,
        forall|j: int|
            0 <= j < i && is_key(#[trigger] samples[j], stream_index) && samples[j].pts <= pts ==> (best matches Some(k)
                && j <= k),
    ensures
        match best_key(samples, i, stream_index, pts, best) {
            Some(k) => {
                &&& 0 <= k < samples.len() && is_key(samples[k], stream_index) && samples[k].pts <= pts
                &&& forall|j: int|
                    0 <= j < samples.len() && is_key(#[trigger] samples[j], stream_index) && samples[j].pts <= pts
                        ==> j <= k
            },
            None => forall|j: int|
                0 <= j < samples.len() && is_key(#[trigger] samples[j], stream_index) ==> samples[j].pts > pts,
        },
    decreases samples.len() - i,
{
    if i < samples.len() {
        let s = samples[i];
        if !is_key(s, stream_index) {
            lemma_best_is_last(samples, i + 1, stream_index, pts, best);
        } else if s.pts <= pts {
            let next = match best {
                Some(k) if s.pts < samples[k].pts => best,
                _ => Some(i),
            };
            if let Some(k) = best {
                assert(samples[k].pts <= samples[i].pts);
            }
            assert(next == Some(i));
            lemma_best_is_last(samples, i + 1, stream_index, pts, next);
        } else {
            assert forall|j: int|
                0 <= j < samples.len() && is_key(#[trigger] samples[j], stream_index) && samples[j].pts <= pts implies (
            best matches Some(k) && j <= k) by {
                if j > i {
                    assert(samples[i].pts <= samples[j].pts);
                }
            }
        }
    }
}

/// Without indexes, and where the keyframes of the stream are shown in file order, a seek goes to the last
/// keyframe that is not after the time, or to the first keyframe where all are after it.
pub proof fn law_seek_last_keyframe(m: DemuxModel, stream_index: u32, pts: i64)
    requires
        m.tfras.len() == 0,
        m.sidxes.len() == 0,
        keys_in_order(m.samples, stream_index),
    ensures
        seek_of(m, stream_index, pts) matches Ok(k) ==> {
            ||| {
                &&& m.samples[k].pts <= pts
                &&& forall|j: int|
                    0 <= j < m.samples.len() && is_key(#[trigger] m.samples[j], stream_index) && m.samples[j].pts <= pts
                        ==> j <= k
            }
            ||| {
                &&& forall|j: int|
                    0 <= j < m.samples.len() && is_key(#[trigger] m.samples[j], stream_index) ==> m.samples[j].pts > pts
                        && j >= k
            }
        },
{
    assert(tfra_goal(m, stream_index, pts) is None);
    assert(sidx_goal(m, stream_index, pts) is None);
    lemma_best_is_last(m.samples, 0, stream_index, pts, None);
    lemma_first_key(m.samples, 0, stream_index, 0);
}

pub proof fn lemma_count_not_after(entries: Seq<TfraEntry>, time: int, n: int)
    requires
        0 <= n <= entries.len(),
    ensures
        ({
            let k = count_not_after(entries, time, n);
            &&& 0 <= k <= n
            &&& k > 0 ==> entries[k - 1].time <= time
            &&& forall|j: int| k <= j < n ==> (#[trigger] entries[j]).time > time
        }),
    decreases n,
{
    if n > 0 && entries[n - 1].time > time {
        lemma_count_not_after(entries, time, n - 1);
    }
}

impl Mp4Demuxer {
    /// Gives the next packet, in order of offset, and moves behind it.
    pub fn next_packet(&mut self) -> (r: Result<PacketRef>)
        requires
            old(self)@.wf(),
        ensures
            final(self)@.wf(),
            old(self)@.cursor >= old(self)@.samples.len() ==> {
                &&& r == Err::<PacketRef, Error>(Error::Eof)
                &&& final(self)@ == old(self)@
            },
            old(self)@.cursor < old(self)@.samples.len() ==> {
                &&& r == Ok::<PacketRef, Error>(packet_of(old(self)@, old(self)@.samples[old(self)@.cursor]))
                &&& r matches Ok(p) && {
                    let s = old(self)@.samples[old(self)@.cursor];
                    &&& p.stream_index == s.track_idx
                    &&& p.timescale == old(self)@.streams[s.track_idx as int].timescale
                    &&& p.offset == s.offset
                    &&& p.size == s.size
                    &&& p.pts == s.pts
                    &&& p.dts == s.dts
                    &&& p.duration == s.duration
                    &&& p.keyframe == s.keyframe
                }
                &&& final(self)@ == (DemuxModel { cursor: old(self)@.cursor + 1, ..old(self)@ })
            },
    {
        if self.cursor >= self.samples.len() {
            return Err(Error::Eof);
        }
        let s = self.samples[self.cursor];
        assert(self@.samples[self.cursor as int].track_idx < self@.streams.len());
        self.cursor = self.cursor + 1;
        let idx: usize = s.track_idx as usize;
        let timescale: u32 = self.streams[idx].timescale;
        assert(timescale == self@.streams[idx as int].timescale);
        Ok(
            PacketRef {
                stream_index: s.track_idx,
                timescale,
                offset: s.offset,
                size: s.size,
                pts: s.pts,
                dts: s.dts,
                duration: s.duration,
                keyframe: s.keyframe,
            },
        )
    }

    /// Finds the random access points that the file lists for the track of a stream.
    fn points(&self, stream_index: u32) -> (r: Option<&Vec<TfraEntry>>)
        ensures
            match r {
                Some(v) => v@ == stream_points(self@, stream_index),
                None => stream_points(self@, stream_index).len() == 0,
            },
    {
        if stream_index as usize >= self.track_ids.len() {
            return None;
        }
        let id: u32 = self.track_ids[stream_index as usize];
        let ghost all = views(self.tfras@);
        let ghost end = all.len() as int;
        proof { assert(all.subrange(0, end) =~= all); }
        let mut i: usize = 0;
        while i < self.tfras.len() && self.tfras[i].track_id != id
            invariant
                i <= self.tfras@.len(),
                all == views(self.tfras@),
                end == all.len(),
                tfra_index(all, id) == i + tfra_index(all.subrange(i as int, end), id),
            decreases self.tfras@.len() - i,
        {
            proof {
                let rest = all.subrange(i as int, end);
                assert(rest[0] == self.tfras@[i as int]@);
                assert(rest.drop_first() =~= all.subrange(i + 1, end));
            }
            i += 1;
        }
        proof {
            let rest = all.subrange(i as int, end);
            if i < end {
                assert(rest[0] == self.tfras@[i as int]@);
            }
            assert(tfra_index(all, id) == i);
        }
        if i >= self.tfras.len() {
            return None;
        }
        assert(self@.tfras[i as int].entries == self.tfras@[i as int].entries@);
        Some(&self.tfras[i].entries)
    }

    /// Finds the last random access point of a stream that is not after a time.
    pub fn tfra_seek_target(&self, stream_index: u32, pts: i64) -> (r: Option<TfraEntry>)
        ensures
            r == tfra_target(self@, stream_index, pts),
    {
        match self.points(stream_index) {
            None => None,
            Some(entries) => {
                let mut n: usize = entries.len();
                while n > 0 && (pts < 0 || entries[n - 1].time > pts as u64)
                    invariant
                        n <= entries@.len(),
                        count_not_after(entries@, pts as int, entries@.len() as int) == count_not_after(
                            entries@,
                            pts as int,
                            n as int,
                        ),
                    decreases n,
                {
                    n -= 1;
                }
                if n > 0 { Some(entries[n - 1]) } else { None }
            },
        }
    }

    /// Finds where to seek to by random access points.
    fn find_point(&self, stream_index: u32, pts: i64) -> (r: Option<u64>)
        ensures
            r == tfra_goal(self@, stream_index, pts),
    {
        if let Some(e) = self.tfra_seek_target(stream_index, pts) {
            return Some(e.moof_offset);
        }
        match self.points(stream_index) {
            Some(entries) => if entries.len() == 0 { None } else { Some(entries[0].moof_offset) },
            None => None,
        }
    }

    /// Walks over the segment indexes of the track of a stream: where the last subsegment that does not
    /// start after the time is, and where the first is.
    fn walk_indexes(&self, stream_index: u32, pts: i64) -> (r: (Option<u64>, Option<u64>))
        ensures
            (SidxHit { best: r.0, first: r.1 }) == sidx_hit(self@, stream_index, pts),
    {
        let k: usize = stream_index as usize;
        if k >= self.track_ids.len() || k >= self.track_timescales.len() {
            return (None, None);
        }
        let track_id: u32 = self.track_ids[k];
        let scale: u32 = self.track_timescales[k];
        if scale == 0 {
            return (None, None);
        }
        let time: u64 = if pts < 0 { 0 } else { pts as u64 };
        let ghost all = views(self.sidxes@);
        let mut best: Option<u64> = None;
        let mut first: Option<u64> = None;
        let mut i: usize = 0;
        while i < self.sidxes.len()
            invariant
                i <= self.sidxes@.len(),
                all == views(self.sidxes@),
                scale > 0,
                indexes_from(all, 0, track_id, scale, time, SidxHit { best: None, first: None }) == indexes_from(
                    all,
                    i as int,
                    track_id,
                    scale,
                    time,
                    SidxHit { best, first },
                ),
            decreases self.sidxes@.len() - i,
        {
            let s = &self.sidxes[i];
            assert(all[i as int] == s@);
            if s.reference_id == track_id && s.references.len() != 0 && s.timescale != 0 {
                find_subsegment(s, scale, time, &mut best, &mut first);
            }
            i += 1;
        }
        (best, first)
    }

    /// Finds where the last subsegment of a stream that does not start after a time is.
    pub fn sidx_seek_target(&self, stream_index: u32, pts: i64) -> (r: Option<u64>)
        ensures
            r == sidx_target(self@, stream_index, pts),
    {
        self.walk_indexes(stream_index, pts).0
    }

    /// Finds where to seek to by segment indexes.
    fn find_indexed(&self, stream_index: u32, pts: i64) -> (r: Option<u64>)
        ensures
            r == sidx_goal(self@, stream_index, pts),
    {
        let (best, first) = self.walk_indexes(stream_index, pts);
        if best.is_some() { best } else { first }
    }

    /// Moves to the sample that a time in a stream is sought at, and gives when it is shown. Where that
    /// fails, nothing moves.
    pub fn seek_to(&mut self, stream_index: u32, pts: i64) -> (r: Result<i64>)
        ensures
            old(self)@.wf() ==> final(self)@.wf(),
            match seek_of(old(self)@, stream_index, pts) {
                Ok(i) => {
                    &&& 0 <= i < old(self)@.samples.len()
                    &&& r == Ok::<i64, Error>(old(self)@.samples[i].pts)
                    &&& final(self)@ == (DemuxModel { cursor: i, ..old(self)@ })
                },
                Err(e) => {
                    &&& r == Err::<i64, Error>(e)
                    &&& final(self)@ == old(self)@
                },
            },
    {
        proof { law_seek_finds_keyframe(self@, stream_index, pts); }
        if stream_index as usize >= self.streams.len() {
            return Err(Error::InvalidData(Detail::StreamOutOfRange(stream_index)));
        }
        let mut found: Option<usize> = None;
        if let Some(offset) = self.find_point(stream_index, pts) {
            found = find_first_key(&self.samples, stream_index, offset);
        }
        if found.is_none() {
            if let Some(offset) = self.find_indexed(stream_index, pts) {
                found = find_first_key(&self.samples, stream_index, offset);
            }
        }
        if found.is_none() {
            found = find_best_key(&self.samples, stream_index, pts);
        }
        if found.is_none() {
            found = find_first_key(&self.samples, stream_index, 0);
        }
        match found {
            Some(i) => {
                self.cursor = i;
                Ok(self.samples[i].pts)
            },
            None => Err(Error::NoKeyframe(stream_index)),
        }
    }

    /// The name of the format.
    pub fn format_name(&self) -> (r: &'static str)
        ensures
            r@ == "mp4"@,
    {
        "mp4"
    }

    /// The duration in microseconds, where it is known.
    pub fn duration_micros(&self) -> (r: Option<i64>)
        ensures
            r == (if self@.duration_micros > 0 { Some(self@.duration_micros) } else { None }),
    {
        if self.duration_micros > 0 { Some(self.duration_micros) } else { None }
    }

    /// The streams.
    pub fn streams(&self) -> (r: &[StreamInfo])
        ensures
            r@ == self.streams@,
    {
        self.streams.as_slice()
    }

    /// The metadata.
    pub fn metadata(&self) -> (r: &[(String, String)])
        ensures
            r@ == self.metadata@,
    {
        self.metadata.as_slice()
    }

    /// The protection systems of the movie.
    pub fn psshes(&self) -> (r: &[PsshBox])
        ensures
            r@ == self.psshes@,
    {
        self.psshes.as_slice()
    }

    /// The protection systems of fragments.
    pub fn moof_psshes(&self) -> (r: &[MoofPsshRecord])
        ensures
            r@ == self.moof_psshes@,
    {
        self.moof_psshes.as_slice()
    }

    /// The encryption information of track fragments.
    pub fn senc_records(&self) -> (r: &[SencRecord])
        ensures
            r@ == self.senc_records@,
    {
        self.senc_records.as_slice()
    }

    /// Progressive download information, where the file has any.
    pub fn pdin_entries(&self) -> (r: Option<&[PdinEntry]>)
        ensures
            match r {
                Some(s) => self@.pdin == Some(s@),
                None => self@.pdin is None,
            },
    {
        match &self.pdin {
            Some(p) => Some(p.entries.as_slice()),
            None => None,
        }
    }

    /// The level assignment, where the file has one.
    pub fn leva_entries(&self) -> (r: Option<&[LevaEntry]>)
        ensures
            match r {
                Some(s) => self@.leva == Some(s@),
                None => self@.leva is None,
            },
    {
        match &self.leva {
            Some(l) => Some(l.entries.as_slice()),
            None => None,
        }
    }

    /// Track extension properties.
    pub fn treps(&self) -> (r: &[TrepRecord])
        ensures
            r@ == self.treps@,
    {
        self.treps.as_slice()
    }

    /// The subsegment indexes.
    pub fn ssixes(&self) -> (r: &[SsixRecord])
        ensures
            r@ == self.ssixes@,
    {
        self.ssixes.as_slice()
    }

    /// The auxiliary information of track fragments.
    pub fn sai_records(&self) -> (r: &[SaiRecord])
        ensures
            r@ == self.sai_records@,
    {
        self.sai_records.as_slice()
    }
}

/// Walks over the references of a segment index.
fn find_subsegment(s: &SidxRecord, scale: u32, pts: u64, best: &mut Option<u64>, first: &mut Option<u64>)
    requires
        scale > 0,
    ensures
        (SidxHit { best: *final(best), first: *final(first) }) == references_from(
            s@.references,
            0,
            s@.earliest_presentation_time,
            s@.first_byte_offset,
            index_time(pts, scale, s@.timescale),
            SidxHit { best: *old(best), first: *old(first) },
        ),
{
    let wanted: u64 = if scale == s.timescale {
        pts
    } else {
        proof {
            assert(0 <= pts * s.timescale <= 0xFFFF_FFFF_FFFF_FFFF * 0xFFFF_FFFF) by (nonlinear_arith)
                requires 0 <= pts <= 0xFFFF_FFFF_FFFF_FFFF, 0 <= s.timescale <= 0xFFFF_FFFF;
        }
        let q: u128 = (pts as u128) * (s.timescale as u128) / (scale as u128);
        (q % 0x1_0000_0000_0000_0000) as u64
    };
    let ghost hit = SidxHit { best: *best, first: *first };
    let mut time: u64 = s.earliest_presentation_time;
    let mut offset: u64 = s.first_byte_offset;
    let mut i: usize = 0;
    while i < s.references.len()
        invariant
            i <= s.references@.len(),
            hit == (SidxHit { best: *old(best), first: *old(first) }),
            references_from(s.references@, 0, s.earliest_presentation_time, s.first_byte_offset, wanted, hit)
                == references_from(
                s.references@,
                i as int,
                time,
                offset,
                wanted,
                SidxHit { best: *best, first: *first },
            ),
        decreases s.references@.len() - i,
    {
        let r = s.references[i];
        if !r.is_sidx {
            if first.is_none() {
                *first = Some(offset);
            }
            if time <= wanted {
                *best = Some(offset);
            }
            time = clamped_add_u64(time, r.subsegment_duration as u64);
        }
        offset = clamped_add_u64(offset, r.referenced_size as u64);
        i += 1;
    }
}

/// Finds the first keyframe of the stream that does not start before an offset.
fn find_first_key(samples: &Vec<SampleRef>, stream_index: u32, offset: u64) -> (r: Option<usize>)
    ensures
        match r {
            Some(i) => first_key(samples@, 0, stream_index, offset) == Some(i as int) && i < samples@.len(),
            None => first_key(samples@, 0, stream_index, offset) is None,
        },
{
    let mut i: usize = 0;
    while i < samples.len()
        invariant
            i <= samples@.len(),
            first_key(samples@, 0, stream_index, offset) == first_key(samples@, i as int, stream_index, offset),
        decreases samples@.len() - i,
    {
        let s = samples[i];
        if s.track_idx == stream_index && s.keyframe && s.offset >= offset {
            return Some(i);
        }
        i += 1;
    }
    None
}

/// Finds the keyframe of the stream with the latest time that is not after `pts`.
fn find_best_key(samples: &Vec<SampleRef>, stream_index: u32, pts: i64) -> (r: Option<usize>)
    ensures
        match r {
            Some(i) => best_key(samples@, 0, stream_index, pts, None) == Some(i as int) && i < samples@.len(),
            None => best_key(samples@, 0, stream_index, pts, None) is None,
        },
{
    let mut best: Option<usize> = None;
    let mut i: usize = 0;
    while i < samples.len()
        invariant
            i <= samples@.len(),
            best matches Some(k) ==> k < samples@.len(),
            best_key(samples@, 0, stream_index, pts, None) == best_key(
                samples@,
                i as int,
                stream_index,
                pts,
                match best {
                    Some(k) => Some(k as int),
                    None => None,
                },
            ),
        decreases samples@.len() - i,
    {
        let s = samples[i];
        if s.track_idx == stream_index && s.keyframe {
            if s.pts <= pts {
                let better = match best {
                    Some(k) => s.pts >= samples[k].pts,
                    None => true,
                };
                if better {
                    best = Some(i);
                }
            } else {
                return best;
            }
        }
        i += 1;
    }
    best
}

/// Where the random access points of a stream are in order of time, the target is the latest of them that
/// is not after the time, and there is none only where all are after it.
pub proof fn law_tfra_target_latest(m: DemuxModel, stream_index: u32, pts: i64)
    requires
        forall|i: int, j: int|
            0 <= i < j < stream_points(m, stream_index).len() ==> (#[trigger] stream_points(m, stream_index)[i]).time <= (
            #[trigger] stream_points(m, stream_index)[j]).time,
    ensures
        ({
            let entries = stream_points(m, stream_index);
            match tfra_target(m, stream_index, pts) {
                Some(e) => {
                    &&& entries.contains(e)
                    &&& e.time <= pts
                    &&& forall|j: int| 0 <= j < entries.len() && (#[trigger] entries[j]).time <= pts ==> entries[j].time
                        <= e.time
                },
                None => forall|j: int| 0 <= j < entries.len() ==> (#[trigger] entries[j]).time > pts,
            }
        }),
{
    let entries = stream_points(m, stream_index);
    let n = entries.len() as int;
    lemma_count_not_after(entries, pts as int, n);
    let k = count_not_after(entries, pts as int, n);
    if k > 0 {
        assert(entries[k - 1] == tfra_target(m, stream_index, pts)->Some_0);
        assert forall|j: int| 0 <= j < entries.len() && (#[trigger] entries[j]).time <= pts implies entries[j].time
            <= entries[k - 1].time by {
            if j < k - 1 {
                assert(entries[j].time <= entries[k - 1].time);
            }
        }
    }
}

/// Packets come in order of offset.
pub proof fn law_packets_ascend(m: DemuxModel, i: int, j: int)
    requires
        m.wf(),
        0 <= i <= j < m.samples.len(),
    ensures
        packet_of(m, m.samples[i]).offset <= packet_of(m, m.samples[j]).offset,
{
}

}
