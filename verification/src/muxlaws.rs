//! When fragments are written, and what the samples in them say of the packets that they were made of.
use vstd::prelude::*;
use crate::boxes::boxed;
use crate::frag::{FragTrackModel, FragmentCadence, PendingModel};
use crate::kinds::MDAT;
use crate::muxer::{
    all_drained, drained, first_tracks, flush_due, flush_of, fragment_bytes, fragment_tracks, held_back, in_media_time,
    media_time, nearest, nothing_pending, packet_of, pending_of, ticks, tracks_data, trailer_of, with_packet, InitTrack,
    MuxModel, MuxPacketModel,
};

verus! {

/// How long the first `k` samples that wait last.
pub open spec fn waiting(p: Seq<PendingModel>, k: int) -> int
    decreases k,
{
    if k <= 0 { 0 } else { waiting(p, k - 1) + p[k - 1].duration }
}

/// How long all samples that wait last.
pub open spec fn waits(p: Seq<PendingModel>) -> int {
    waiting(p, p.len() as int)
}

/// The packet is one that the muxer takes.
pub open spec fn takes(m: MuxModel, p: MuxPacketModel) -> bool {
    m.header_written && p.stream_index < m.tracks.len()
}

/// The muxer behind a packet.
#[verifier::opaque]
pub open spec fn behind(m: MuxModel, p: MuxPacketModel) -> MuxModel {
    packet_of(m, p).0
}

/// Whether the packet completes a fragment: bytes are given, and the fragment has the next number.
#[verifier::opaque]
pub open spec fn completes(m: MuxModel, p: MuxPacketModel) -> bool {
    let (m2, r) = packet_of(m, p);
    &&& r is Ok
    &&& r->Ok_0.len() > 0
    &&& m2.sequence_number == (m.sequence_number + 1) % 0x1_0000_0000
}

/// Whether the packet only waits: no bytes are given, the other tracks keep what they have, and one sample more
/// waits in its track.
#[verifier::opaque]
pub open spec fn only_waits(m: MuxModel, p: MuxPacketModel) -> bool {
    let (m2, r) = packet_of(m, p);
    let k = p.stream_index as int;
    &&& r is Ok
    &&& r->Ok_0.len() == 0
    &&& m2.sequence_number == m.sequence_number
    &&& m2.tracks.len() == m.tracks.len()
    &&& forall|i: int| 0 <= i < m.tracks.len() && i != k ==> #[trigger] m2.tracks[i] == m.tracks[i]
    &&& m2.tracks[k].pending.len() == m.tracks[k].pending.len() + 1
    &&& m2.tracks[k].pending.drop_last() == m.tracks[k].pending
    &&& m2.tracks[k].next_bmdt == m.tracks[k].next_bmdt
}

proof fn lemma_waiting(p: Seq<PendingModel>, k: int)
    ensures
        ticks(p, k) == waiting(p, k),
        waiting(p, k) >= 0,
    decreases k,
{
    if k > 0 {
        lemma_waiting(p, k - 1);
    }
}

proof fn lemma_waiting_push(p: Seq<PendingModel>, x: PendingModel, k: int)
    requires
        0 <= k <= p.len(),
    ensures
        waiting(p.push(x), k) == waiting(p, k),
    decreases k,
{
    if k > 0 {
        lemma_waiting_push(p, x, k - 1);
    }
}

proof fn lemma_bytes(m: MuxModel, tracks: Seq<FragTrackModel>)
    ensures
        fragment_bytes(m, tracks).len() >= 8,
{
    let d = tracks_data(Seq::empty(), tracks, 0);
    assert(boxed(MDAT, d).len() == 8 + d.len());
}

/// The muxer with a packet put into its track.
#[verifier::opaque]
spec fn taken(m: MuxModel, p: MuxPacketModel) -> MuxModel {
    let k = p.stream_index as int;
    MuxModel { tracks: m.tracks.update(k, with_packet(m.tracks[k], p)), ..m }
}

proof fn lemma_taken(m: MuxModel, p: MuxPacketModel)
    requires
        takes(m, p),
    ensures
        ({
            let m1 = taken(m, p);
            let k = p.stream_index as int;
            &&& m1.tracks.len() == m.tracks.len()
            &&& m1.tracks[k].pending == m.tracks[k].pending.push(pending_of(m.tracks[k], p))
            &&& m1.tracks[k].next_bmdt == m.tracks[k].next_bmdt
            &&& forall|i: int| 0 <= i < m.tracks.len() && i != k ==> #[trigger] m1.tracks[i] == m.tracks[i]
            &&& m1.sequence_number == m.sequence_number
            &&& m1.cadence == m.cadence
        }),
{
    reveal(taken);
}

/// A packet for which no fragment is due only waits.
proof fn lemma_waits(m: MuxModel, p: MuxPacketModel)
    requires
        takes(m, p),
        !flush_due(taken(m, p), p.stream_index as int, p.keyframe),
    ensures
        only_waits(m, p),
        !completes(m, p),
        packet_of(m, p).0 == taken(m, p),
{
    reveal(taken);
    reveal(completes);
    reveal(only_waits);
    lemma_taken(m, p);
    let k = p.stream_index as int;
    let had = m.tracks[k].pending;
    assert(had.push(pending_of(m.tracks[k], p)).drop_last() =~= had);
}

/// A packet for which a fragment is due that holds nothing back completes one, which takes all that waits.
proof fn lemma_completes(m: MuxModel, p: MuxPacketModel)
    requires
        takes(m, p),
        flush_due(taken(m, p), p.stream_index as int, p.keyframe),
        m.cadence != FragmentCadence::EveryKeyframe,
    ensures
        completes(m, p),
        !only_waits(m, p),
        packet_of(m, p).0.tracks == all_drained(taken(m, p).tracks),
{
    reveal(taken);
    reveal(completes);
    reveal(only_waits);
    lemma_taken(m, p);
    let k = p.stream_index as int;
    let m1 = taken(m, p);
    assert(held_back(m1, k) is None);
    assert(fragment_tracks(m1, k) == m1.tracks);
    assert(m1.tracks[k].pending.len() > 0);
    assert(!nothing_pending(m1.tracks));
    lemma_bytes(m1, m1.tracks);
}

/// What waits in the first track with the packet in its track, and when that is enough.
proof fn lemma_first(m: MuxModel, p: MuxPacketModel, n: u64)
    requires
        m.cadence == FragmentCadence::EveryTicks(n),
        takes(m, p),
        waits(m.tracks[0].pending) < n,
        n <= 0x7FFF_FFFF_FFFF_FFFF,
    ensures
        ({
            let had = waits(m.tracks[0].pending);
            let now = waits(taken(m, p).tracks[0].pending);
            &&& had <= now <= had + u32::MAX
            &&& p.stream_index != 0 ==> now == had
            &&& flush_due(taken(m, p), p.stream_index as int, p.keyframe) <==> now >= n
        }),
{
    reveal(taken);
    lemma_taken(m, p);
    let m1 = taken(m, p);
    let had = m.tracks[0].pending;
    let first = m1.tracks[0].pending;
    lemma_waiting(first, first.len() as int);
    lemma_waiting(had, had.len() as int);
    if p.stream_index == 0 {
        let x = pending_of(m.tracks[0], p);
        lemma_waiting_push(had, x, had.len() as int);
        assert(first.len() == had.len() + 1);
        assert(waits(first) == waits(had) + x.duration);
    }
    if first.len() == 0 {
        assert(waits(first) == 0);
    }
}

/// Whether the samples of the first track in the fragment between `m` and `m2` last at least `n`, of which no
/// more than `last` are those of its last sample.
pub open spec fn lasts(m: MuxModel, m2: MuxModel, n: int, last: int) -> bool {
    &&& m2.tracks.len() == m.tracks.len()
    &&& m2.tracks[0].next_bmdt - m.tracks[0].next_bmdt >= n
    &&& m2.tracks[0].next_bmdt - m.tracks[0].next_bmdt == waits(m.tracks[0].pending) + last
    &&& 0 <= last <= u32::MAX
    &&& nothing_waits(m2)
}

proof fn lemma_ticks_due(m: MuxModel, m1: MuxModel, m2: MuxModel, n: u64)
    requires
        m.tracks.len() > 0,
        m1.tracks.len() == m.tracks.len(),
        m2.tracks == all_drained(m1.tracks),
        m1.tracks[0].next_bmdt == m.tracks[0].next_bmdt,
        m.tracks[0].next_bmdt <= 0x7FFF_FFFF_0000_0000,
        waits(m.tracks[0].pending) < n <= 0x7FFF_FFFF_FFFF_FFFF,
        n <= waits(m1.tracks[0].pending) <= waits(m.tracks[0].pending) + u32::MAX,
    ensures
        lasts(m, m2, n as int, waits(m1.tracks[0].pending) - waits(m.tracks[0].pending)),
        waits(m2.tracks[0].pending) == 0,
{
    lemma_all_drained(m1.tracks);
    assert(m2.tracks[0].pending.len() == 0);
    assert(waits(m2.tracks[0].pending) == 0);
}

/// What a packet comes to with a cadence of `n` ticks.
proof fn lemma_outcome(m: MuxModel, p: MuxPacketModel, n: u64)
    requires
        m.cadence == FragmentCadence::EveryTicks(n),
        takes(m, p),
        waits(m.tracks[0].pending) < n,
        n <= 0x7FFF_FFFF_FFFF_FFFF,
    ensures
        waits(taken(m, p).tracks[0].pending) >= n ==> completes(m, p) && !only_waits(m, p) && behind(m, p).tracks
            == all_drained(taken(m, p).tracks),
        waits(taken(m, p).tracks[0].pending) < n ==> only_waits(m, p) && !completes(m, p) && behind(m, p) == taken(m, p),
{
    reveal(behind);
    lemma_first(m, p, n);
    if flush_due(taken(m, p), p.stream_index as int, p.keyframe) {
        lemma_completes(m, p);
    } else {
        lemma_waits(m, p);
    }
}

/// With a cadence of `n` ticks a packet completes a fragment exactly where the durations of the samples that
/// wait in the first track, added up, reach `n`. Less than that waits behind every packet; so the samples of
/// the first track in a fragment last at least `n`, and would last less without the last of them.
pub proof fn law_ticks_cadence(m: MuxModel, p: MuxPacketModel, n: u64)
    requires
        m.cadence == FragmentCadence::EveryTicks(n),
        takes(m, p),
        waits(m.tracks[0].pending) < n,
        n <= 0x7FFF_FFFF_FFFF_FFFF,
        m.tracks[0].next_bmdt <= 0x7FFF_FFFF_0000_0000,
    ensures
        waits(behind(m, p).tracks[0].pending) < n,
        completes(m, p) != only_waits(m, p),
        completes(m, p) ==> p.stream_index == 0 && exists|last: int| #[trigger]
            lasts(m, behind(m, p), n as int, last),
        only_waits(m, p) ==> behind(m, p).tracks[0].next_bmdt == m.tracks[0].next_bmdt,
{
    lemma_taken(m, p);
    lemma_first(m, p, n);
    lemma_outcome(m, p, n);
    lemma_waiting(m.tracks[0].pending, m.tracks[0].pending.len() as int);
    let m1 = taken(m, p);
    if waits(m1.tracks[0].pending) >= n {
        lemma_ticks_due(m, m1, behind(m, p), n);
    }
}

/// Whether no sample waits in any track.
pub open spec fn nothing_waits(m: MuxModel) -> bool {
    forall|i: int| 0 <= i < m.tracks.len() ==> (#[trigger] m.tracks[i]).pending.len() == 0
}

proof fn lemma_all_drained(tracks: Seq<FragTrackModel>)
    ensures
        all_drained(tracks).len() == tracks.len(),
        forall|i: int| 0 <= i < tracks.len() ==> (#[trigger] all_drained(tracks)[i]).pending.len() == 0,
        tracks.len() > 0 && tracks[0].next_bmdt + waits(tracks[0].pending) < 0x1_0000_0000_0000_0000
            ==> all_drained(tracks)[0].next_bmdt == tracks[0].next_bmdt + waits(tracks[0].pending),
{
    if tracks.len() > 0 {
        lemma_waiting(tracks[0].pending, tracks[0].pending.len() as int);
        assert(all_drained(tracks)[0] == drained(tracks[0]));
    }
}

/// With a cadence of `n` packets a packet completes a fragment exactly where its track then has `n` samples
/// waiting. The fragment takes all that wait in all tracks.
pub proof fn law_count_cadence(m: MuxModel, p: MuxPacketModel, n: u32)
    requires
        m.cadence == FragmentCadence::EveryNPackets(n),
        n > 0,
        takes(m, p),
        m.tracks[p.stream_index as int].pending.len() < n,
    ensures
        ({
            let had = m.tracks[p.stream_index as int].pending.len();
            &&& had + 1 == n ==> completes(m, p) && nothing_waits(packet_of(m, p).0)
            &&& had + 1 < n ==> only_waits(m, p)
        }),
{
    reveal(taken);
    lemma_taken(m, p);
    let m1 = taken(m, p);
    let k = p.stream_index as int;
    if m.tracks[k].pending.len() + 1 == n {
        assert(flush_due(m1, k, p.keyframe));
        lemma_completes(m, p);
        lemma_all_drained(m1.tracks);
    } else {
        assert(!flush_due(m1, k, p.keyframe));
        lemma_waits(m, p);
    }
}

/// Where fragments start at keyframes, a packet completes one exactly where it is a keyframe and samples of
/// its track wait.
pub proof fn law_keyframe_cadence(m: MuxModel, p: MuxPacketModel)
    requires
        m.cadence == FragmentCadence::EveryKeyframe,
        takes(m, p),
    ensures
        !p.keyframe || m.tracks[p.stream_index as int].pending.len() == 0 ==> only_waits(m, p),
        p.keyframe && m.tracks[p.stream_index as int].pending.len() > 0 ==> completes(m, p) && !only_waits(m, p),
{
    reveal(taken);
    lemma_taken(m, p);
    let m1 = taken(m, p);
    let k = p.stream_index as int;
    if p.keyframe && m.tracks[k].pending.len() > 0 {
        reveal(completes);
        reveal(only_waits);
        crate::muxer::law_keyframe_starts_fragment(m, p, k);
        lemma_bytes(m1, fragment_tracks(m1, k));
        assert(flush_due(m1, k, p.keyframe));
        let now = fragment_tracks(m1, k);
        assert(now[k].pending.len() > 0);
        assert(!nothing_pending(now));
    } else {
        assert(!flush_due(m1, k, p.keyframe));
        lemma_waits(m, p);
    }
}

/// Where a fragment is written at the end only, and where fragments have no packets, packets only wait.
pub proof fn law_no_cadence(m: MuxModel, p: MuxPacketModel)
    requires
        m.cadence == FragmentCadence::AtEnd || m.cadence == FragmentCadence::EveryNPackets(0),
        takes(m, p),
    ensures
        only_waits(m, p),
{
    reveal(taken);
    lemma_waits(m, p);
}

/// A time in units of `num / den` seconds is put into the nearest number of units of which there are `scale` in
/// a second.
pub proof fn law_media_time_nearest(v: i64, num: i64, den: i64, scale: u32)
    requires
        den > 0,
        -0x7FFF_FFFF_FFFF_FFFF * den < v * num * scale < 0x7FFF_FFFF_FFFF_FFFF * den,
    ensures
        -den <= 2 * (in_media_time(v, num, den, scale) * den - v * num * scale) <= den,
{
    reveal(in_media_time);
    let p = v * num * scale;
    let d = den as int;
    let a = if p >= 0 { p } else { -p };
    let q = (2 * a + d) / (2 * d);
    assert(q * (2 * d) <= 2 * a + d < (q + 1) * (2 * d)) by (nonlinear_arith)
        requires q == (2 * a + d) / (2 * d), d > 0, a >= 0;
    assert(-d <= 2 * (q * d - a) <= d && 0 <= q && q <= 0x7FFF_FFFF_FFFF_FFFF) by (nonlinear_arith)
        requires
            q * (2 * d) <= 2 * a + d,
            2 * a + d < (q + 1) * (2 * d),
            a < 0x7FFF_FFFF_FFFF_FFFF * d,
            d > 0,
            a >= 0,
            q == (2 * a + d) / (2 * d);
    let r = nearest(p, d);
    assert(r == (if p >= 0 { q } else { -q }));
    assert(r * d == (if p >= 0 { q * d } else { -(q * d) })) by (nonlinear_arith)
        requires r == (if p >= 0 { q } else { -q });
}

/// A time that is in the timescale of the track already stays as it is.
pub proof fn law_media_time_same(v: i64, scale: u32)
    requires
        scale > 0,
    ensures
        in_media_time(v, 1, scale as i64, scale) == v,
{
    reveal(in_media_time);
    let d = scale as int;
    let a = if v >= 0 { v as int } else { -v };
    assert(v * 1 * scale == v * d);
    assert((2 * (a * d) + d) / (2 * d) == a) by (nonlinear_arith)
        requires d > 0, a >= 0;
    assert((v >= 0 ==> v * d == a * d && v * d >= 0) && (v < 0 ==> v * d < 0 && -(v * d) == a * d)) by (nonlinear_arith)
        requires d > 0, a == (if v >= 0 { v as int } else { -v });
}

/// What a sample says of the packet that it was made of, and what its track keeps: of `t` before, `t2` behind
/// it and the sample `x`.
pub open spec fn says(t: FragTrackModel, p: MuxPacketModel, t2: FragTrackModel, x: PendingModel) -> bool {
    &&& x.data == p.data
    &&& x.flags as int / 0x1_0000 % 2 == (if p.keyframe { 0int } else { 1int })
    &&& p.duration is Some && 0 < p.duration->Some_0 <= u32::MAX ==> x.duration == p.duration->Some_0
    &&& p.duration is Some && p.duration->Some_0 <= 0 ==> x.duration == 1
    &&& p.duration is Some && p.duration->Some_0 > 0 ==> x.duration == p.duration->Some_0 % 0x1_0000_0000
    &&& p.duration is None && p.pts is Some && t.prev_pts is Some && 0 < p.pts->Some_0 - t.prev_pts->Some_0
        <= u32::MAX ==> x.duration == p.pts->Some_0 - t.prev_pts->Some_0
    &&& p.duration is None && p.pts is Some && t.prev_pts is Some && i64::MIN < p.pts->Some_0 - t.prev_pts->Some_0
        <= 0 ==> x.duration == 1
    &&& p.duration is None && (p.pts is None || t.prev_pts is None) ==> x.duration == 1
    &&& p.pts is Some && p.dts is Some && i32::MIN <= p.pts->Some_0 - p.dts->Some_0 <= i32::MAX
        ==> x.composition_time_offset == p.pts->Some_0 - p.dts->Some_0
    &&& p.pts is None || p.dts is None ==> x.composition_time_offset == 0
    &&& p.pts is Some ==> t2.prev_pts == p.pts
    &&& t2.cumulative_duration == (t.cumulative_duration + x.duration) % 0x1_0000_0000_0000_0000
    &&& t2.packets_total == (t.packets_total + 1) % 0x1_0000_0000_0000_0000
    &&& t.first_pts is Some ==> t2.first_pts == t.first_pts
    &&& t.first_pts is None && p.pts is Some ==> t2.first_pts == p.pts
    &&& t.first_pts is None && p.pts is None ==> t2.first_pts == Some(0i64)
    &&& p.pts is None && t.prev_pts is Some && 0 <= t.prev_pts->Some_0 < 0x7FFF_FFFF_0000_0000 ==> t2.prev_pts == Some(
        (t.prev_pts->Some_0 + x.duration) as i64,
    )
    &&& p.pts is None && t.prev_pts is None ==> t2.prev_pts == Some(x.duration as i64)
    &&& !t.trex_locked && p.data.len() <= u32::MAX ==> t2.trex_default_sample_size == p.data.len()
    &&& t2.trex_locked
    &&& t2.next_bmdt == t.next_bmdt
    &&& t2.tkhd == t.tkhd && t2.mdia == t.mdia
    &&& t2.media_time_scale == t.media_time_scale
    &&& t2.track_id == t.track_id
    &&& !t.trex_locked ==> t2.trex_default_sample_duration == x.duration && t2.trex_default_sample_flags == x.flags
    &&& t.trex_locked ==> t2.trex_default_sample_duration == t.trex_default_sample_duration
        && t2.trex_default_sample_flags == t.trex_default_sample_flags && t2.trex_default_sample_size
        == t.trex_default_sample_size
}

proof fn lemma_says(t: FragTrackModel, p: MuxPacketModel)
    requires
        t.media_time_scale > 0,
        p.time_num == 1,
        p.time_den == t.media_time_scale,
    ensures
        says(t, p, with_packet(t, p), pending_of(t, p)),
{
    if let Some(v) = p.pts {
        law_media_time_same(v, t.media_time_scale);
    }
    if let Some(v) = p.dts {
        law_media_time_same(v, t.media_time_scale);
    }
    if let Some(v) = p.duration {
        law_media_time_same(v, t.media_time_scale);
    }
    assert(media_time(p.pts, p, t.media_time_scale) == p.pts);
    assert(media_time(p.dts, p, t.media_time_scale) == p.dts);
    assert(media_time(p.duration, p, t.media_time_scale) == p.duration);
}

/// What a sample says of the packet that it was made of: its data, whether it is a keyframe, how long it lasts
/// and how much later it is shown than decoded. Where the packet has no duration, it lasts from when the one
/// before it is shown; at least 1. Times are in the timescale of the track here.
pub proof fn law_sample_of_packet(m: MuxModel, p: MuxPacketModel)
    requires
        takes(m, p),
        only_waits(m, p),
        m.tracks[p.stream_index as int].media_time_scale > 0,
        p.time_num == 1,
        p.time_den == m.tracks[p.stream_index as int].media_time_scale,
    ensures
        ({
            let t2 = packet_of(m, p).0.tracks[p.stream_index as int];
            says(m.tracks[p.stream_index as int], p, t2, t2.pending.last())
        }),
{
    reveal(taken);
    lemma_taken(m, p);
    let k = p.stream_index as int;
    lemma_says(m.tracks[k], p);
    if flush_due(taken(m, p), k, p.keyframe) {
        if m.cadence != FragmentCadence::EveryKeyframe {
            lemma_completes(m, p);
        } else {
            law_keyframe_cadence(m, p);
        }
    } else {
        lemma_waits(m, p);
    }
}

/// A fragment moves the decode time of each track by as long as its samples in it last.
pub proof fn law_decode_times(m: MuxModel, k: int, i: int)
    requires
        0 <= k < m.tracks.len(),
        0 <= i < m.tracks.len(),
        m.tracks[i].next_bmdt + waits(m.tracks[i].pending) < 0x1_0000_0000_0000_0000,
    ensures
        ({
            let t = m.tracks[i];
            let t2 = flush_of(m, k).0.tracks[i];
            &&& t2.next_bmdt + waits(t2.pending) == t.next_bmdt + waits(t.pending)
            &&& t.cumulative_duration >= u32::MAX ==> t2.cumulative_duration == t.cumulative_duration
            &&& t2.packets_total == t.packets_total
            &&& t2.prev_pts == t.prev_pts
            &&& t2.first_pts == t.first_pts
            &&& t2.trex_locked == t.trex_locked
        }),
{
    crate::muxer::law_flush_conserves(m, k, i);
    let p = m.tracks[i].pending;
    let w = fragment_tracks(m, k)[i].pending;
    let rest = flush_of(m, k).0.tracks[i].pending;
    lemma_waiting(p, p.len() as int);
    lemma_waiting(w, w.len() as int);
    lemma_waiting(rest, rest.len() as int);
    if !nothing_pending(fragment_tracks(m, k)) {
        lemma_waits_sum(w, rest, rest.len() as int);
        assert(w + rest == p);
    }
}

proof fn lemma_waits_sum(a: Seq<PendingModel>, b: Seq<PendingModel>, n: int)
    requires
        0 <= n <= b.len(),
    ensures
        waiting(a + b, a.len() + n) == waits(a) + waiting(b, n),
    decreases n,
{
    if n > 0 {
        lemma_waits_sum(a, b, n - 1);
        assert((a + b)[a.len() + n - 1] == b[n - 1]);
    } else {
        lemma_waiting_prefix(a, b, a.len() as int);
    }
}

proof fn lemma_waiting_prefix(a: Seq<PendingModel>, b: Seq<PendingModel>, n: int)
    requires
        0 <= n <= a.len(),
    ensures
        waiting(a + b, n) == waiting(a, n),
    decreases n,
{
    if n > 0 {
        lemma_waiting_prefix(a, b, n - 1);
        assert((a + b)[n - 1] == a[n - 1]);
    }
}

/// The trailer comes behind the header and once. It writes a last fragment where samples wait that are not held back,
/// and else nothing.
pub proof fn law_trailer_once(m: MuxModel)
    ensures
        m.trailer_written ==> trailer_of(m) == (m, Ok::<Seq<u8>, crate::error::Error>(Seq::empty())),
        !m.trailer_written && !m.header_written ==> trailer_of(m).1 is Err && trailer_of(m).0 == m,
        !m.trailer_written && m.header_written ==> {
            let (m2, r) = trailer_of(m);
            &&& r is Ok
            &&& m2.trailer_written
            &&& nothing_waits(m) ==> r->Ok_0.len() == 0 && m2.sequence_number == m.sequence_number
            &&& !nothing_waits(m) && m.cadence != FragmentCadence::EveryKeyframe ==> {
                &&& r->Ok_0.len() > 0
                &&& m2.sequence_number == (m.sequence_number + 1) % 0x1_0000_0000
                &&& nothing_waits(m2)
            }
        },
{
    if !m.trailer_written && m.header_written && !nothing_waits(m) {
        assert(!nothing_pending(m.tracks));
        if m.cadence != FragmentCadence::EveryKeyframe {
            assert(held_back(m, 0) is None);
            lemma_bytes(m, m.tracks);
            lemma_all_drained(m.tracks);
        }
    }
}

/// The tracks of a muxer that starts are numbered from 1, and nothing has been written of them.
pub proof fn law_first_tracks(init: Seq<InitTrack>, i: int)
    requires
        0 <= i < init.len(),
        init.len() < u32::MAX,
    ensures
        ({
            let t = first_tracks(init)[i];
            &&& first_tracks(init).len() == init.len()
            &&& t.track_id == i + 1
            &&& t.tkhd == init[i].tkhd@
            &&& t.mdia == init[i].mdia@
            &&& t.media_time_scale == init[i].media_time_scale
            &&& t.pending.len() == 0
            &&& t.next_bmdt == 0
            &&& t.cumulative_duration == 0
            &&& t.first_pts is None
            &&& t.prev_pts is None
            &&& !t.trex_locked
        }),
{
}

}
