//! The movie box: its tracks, times, metadata and what it announces of fragments.
use vstd::prelude::*;
use crate::boxes::{
    body_of, child_at, has_child, header_at, lemma_views_push, lemma_walk_keeps, next_child, next_pos, opt_view,
    views, walk, Child, Outcome,
};
use crate::bytes::{be32, be64, read_u32, read_u64};
use crate::cenc::{parse_pssh, pssh_of, PsshBox, PsshModel};
use crate::error::{seen, Error, Result};
use crate::index::{leva_of, parse_leva, parse_trep, trep_of, LevaEntry, LevaRecord, TrepModel, TrepRecord};
use crate::kinds::{LEVA, MDIA, MEHD, META, MVEX, MVHD, PSSH, TRAK, TREP, TREX, UDTA};
use crate::meta::{meta_of, parse_meta, parse_udta, udta_from, Metadata};
use crate::track::{Track, TrackModel, TrexDefaults};
use crate::trak::{law_media_makes_track, parse_trak, trak_of};

verus! {

/// What a movie box says.
pub struct ParsedMoov {
    pub tracks: Vec<Track>,
    pub movie_timescale: u32,
    pub movie_duration: u64,
    /// The duration with all fragments.
    pub mehd_fragment_duration: Option<u64>,
    pub metadata: Vec<(String, String)>,
    pub psshes: Vec<PsshBox>,
    pub leva: Option<LevaRecord>,
    pub treps: Vec<TrepRecord>,
}

/// The model of `ParsedMoov`.
pub ghost struct MovieModel {
    pub tracks: Seq<TrackModel>,
    pub movie_timescale: u32,
    pub movie_duration: u64,
    pub mehd_fragment_duration: Option<u64>,
    pub metadata: Metadata,
    pub psshes: Seq<PsshModel>,
    pub leva: Option<Seq<LevaEntry>>,
    pub treps: Seq<TrepModel>,
}

impl View for ParsedMoov {
    type V = MovieModel;

    open spec fn view(&self) -> MovieModel {
        MovieModel {
            tracks: views(self.tracks@),
            movie_timescale: self.movie_timescale,
            movie_duration: self.movie_duration,
            mehd_fragment_duration: self.mehd_fragment_duration,
            metadata: views(self.metadata@),
            psshes: views(self.psshes@),
            leva: opt_view(self.leva),
            treps: views(self.treps@),
        }
    }
}

impl MovieModel {
    /// A movie of which nothing is known.
    pub open spec fn blank() -> MovieModel {
        MovieModel {
            tracks: Seq::empty(),
            movie_timescale: 0,
            movie_duration: 0,
            mehd_fragment_duration: None,
            metadata: Seq::empty(),
            psshes: Seq::empty(),
            leva: None,
            treps: Seq::empty(),
        }
    }
}

impl ParsedMoov {
    /// A movie of which nothing is known.
    pub fn blank() -> (m: ParsedMoov)
        ensures
            m@ == MovieModel::blank(),
    {
        let m = ParsedMoov {
            tracks: Vec::new(),
            movie_timescale: 0,
            movie_duration: 0,
            mehd_fragment_duration: None,
            metadata: Vec::new(),
            psshes: Vec::new(),
            leva: None,
            treps: Vec::new(),
        };
        proof {
            assert(m@.tracks =~= Seq::empty());
            assert(m@.metadata =~= Seq::empty());
            assert(m@.psshes =~= Seq::empty());
            assert(m@.treps =~= Seq::empty());
        }
        m
    }
}

/// The content of an `mehd` payload.
pub open spec fn mehd_of(b: Seq<u8>) -> Result<u64> {
    if b.len() == 0 {
        Err(Error::invalid("MP4: mehd empty"))
    } else if b[0] == 0 {
        if b.len() < 8 { Err(Error::invalid("MP4: mehd v0 too short")) } else { Ok(be32(b, 4) as u64) }
    } else if b[0] == 1 {
        if b.len() < 12 { Err(Error::invalid("MP4: mehd v1 too short")) } else { Ok(be64(b, 4)) }
    } else {
        Err(Error::invalid("MP4: mehd unknown version"))
    }
}

/// Parses the movie extends header: the duration with all fragments.
pub fn parse_mehd(body: &[u8]) -> (r: Result<u64>)
    ensures
        r == mehd_of(body@),
{
    if body.len() == 0 {
        return Err(Error::invalid("MP4: mehd empty"));
    }
    let version: u8 = body[0];
    if version == 0 {
        if body.len() < 8 {
            return Err(Error::invalid("MP4: mehd v0 too short"));
        }
        Ok(read_u32(body, 4) as u64)
    } else if version == 1 {
        if body.len() < 12 {
            return Err(Error::invalid("MP4: mehd v1 too short"));
        }
        Ok(read_u64(body, 4))
    } else {
        Err(Error::invalid("MP4: mehd unknown version"))
    }
}

/// The index of the first track with the given number, or how many there are where none has it.
pub open spec fn track_index(tracks: Seq<TrackModel>, id: u32) -> int
    decreases tracks.len(),
{
    if tracks.len() == 0 || tracks[0].track_id == id { 0 } else { 1 + track_index(tracks.drop_first(), id) }
}

/// `track_index` is in range, the track there has the number, and none before it has.
pub proof fn lemma_track_index(tracks: Seq<TrackModel>, id: u32)
    ensures
        0 <= track_index(tracks, id) <= tracks.len(),
        track_index(tracks, id) < tracks.len() ==> tracks[track_index(tracks, id)].track_id == id,
        forall|i: int| 0 <= i < track_index(tracks, id) ==> (#[trigger] tracks[i]).track_id != id,
    decreases tracks.len(),
{
    if tracks.len() > 0 && tracks[0].track_id != id {
        let rest = tracks.drop_first();
        lemma_track_index(rest, id);
        assert forall|i: int| 0 <= i < track_index(tracks, id) implies (#[trigger] tracks[i]).track_id != id by {
            if i > 0 {
                assert(rest[i - 1] == tracks[i]);
            }
        }
    }
}

/// Finds the first track with the given number.
pub fn find_track(tracks: &[Track], id: u32) -> (r: Option<usize>)
    ensures
        match r {
            Some(i) => i == track_index(views(tracks@), id) && i < tracks@.len(),
            None => track_index(views(tracks@), id) == tracks@.len(),
        },
{
    let ghost all = views(tracks@);
    proof { lemma_track_index(all, id); }
    let mut i: usize = 0;
    while i < tracks.len()
        invariant
            i <= tracks@.len(),
            all == views(tracks@),
            i <= track_index(all, id) <= all.len(),
            track_index(all, id) < all.len() ==> all[track_index(all, id)].track_id == id,
            forall|k: int| 0 <= k < track_index(all, id) ==> (#[trigger] all[k]).track_id != id,
        decreases tracks@.len() - i,
    {
        assert(all[i as int].track_id == tracks@[i as int].track_id);
        if tracks[i].track_id == id {
            return Some(i);
        }
        i += 1;
    }
    None
}

/// What a `trex` payload says: the defaults of the first track with its number.
pub open spec fn trex_of(tracks: Seq<TrackModel>, b: Seq<u8>) -> Outcome<Seq<TrackModel>> {
    let i = track_index(tracks, be32(b, 4));
    if b.len() < 24 {
        (tracks, Err(Error::invalid("MP4: trex too short")))
    } else if i == tracks.len() {
        (tracks, Ok(()))
    } else {
        (
            tracks.update(
                i,
                TrackModel {
                    trex: TrexDefaults {
                        default_sample_description_index: be32(b, 8),
                        default_sample_duration: be32(b, 12),
                        default_sample_size: be32(b, 16),
                        default_sample_flags: be32(b, 20),
                    },
                    ..tracks[i]
                },
            ),
            Ok(()),
        )
    }
}

/// Parses the defaults for the fragments of a track.
pub fn parse_trex(body: &[u8], tracks: &mut Vec<Track>) -> (r: Result<()>)
    ensures
        (views(final(tracks)@), r) == trex_of(views(old(tracks)@), body@),
{
    if body.len() < 24 {
        return Err(Error::invalid("MP4: trex too short"));
    }
    if let Some(i) = find_track(tracks.as_slice(), read_u32(body, 4)) {
        let ghost before = views(tracks@);
        let t = &mut tracks[i];
        t.trex = TrexDefaults {
            default_sample_description_index: read_u32(body, 8),
            default_sample_duration: read_u32(body, 12),
            default_sample_size: read_u32(body, 16),
            default_sample_flags: read_u32(body, 20),
        };
        proof {
            let now = trex_of(before, body@).0;
            assert(views(tracks@) =~= now);
        }
    }
    Ok(())
}

/// What the movie extends box changes.
pub ghost struct ExtendsModel {
    pub tracks: Seq<TrackModel>,
    pub mehd_fragment_duration: Option<u64>,
    pub leva: Option<Seq<LevaEntry>>,
    pub treps: Seq<TrepModel>,
}

/// What one child of the movie extends box says. Of durations and level assignments the
/// first that is well formed counts; what is malformed is left out, but for defaults.
pub open spec fn mvex_step(s: ExtendsModel, c: Child) -> Outcome<ExtendsModel> {
    if c.kind != TREX && c.kind != MEHD && c.kind != LEVA && c.kind != TREP {
        (s, Ok(()))
    } else {
        match body_of(c) {
            Err(e) => (s, Err(e)),
            Ok(d) => if c.kind == TREX {
                let (tracks, r) = trex_of(s.tracks, d);
                (ExtendsModel { tracks, ..s }, r)
            } else if c.kind == MEHD {
                match mehd_of(d) {
                    Ok(n) if s.mehd_fragment_duration is None => (
                        ExtendsModel { mehd_fragment_duration: Some(n), ..s },
                        Ok(()),
                    ),
                    _ => (s, Ok(())),
                }
            } else if c.kind == LEVA {
                match leva_of(d) {
                    Ok(l) if s.leva is None => (ExtendsModel { leva: Some(l), ..s }, Ok(())),
                    _ => (s, Ok(())),
                }
            } else {
                match trep_of(d) {
                    Ok(t) => (ExtendsModel { treps: s.treps.push(t), ..s }, Ok(())),
                    Err(_) => (s, Ok(())),
                }
            },
        }
    }
}

/// What the movie extends box from byte `pos` on says.
pub open spec fn mvex_from(b: Seq<u8>, pos: int, s: ExtendsModel) -> Outcome<ExtendsModel> {
    walk(b, pos, s, |s: ExtendsModel, c: Child| mvex_step(s, c))
}

/// What the movie extends box changes, taken together.
pub open spec fn extends_of(
    tracks: Vec<Track>,
    mehd_fragment_duration: Option<u64>,
    leva: Option<LevaRecord>,
    treps: Vec<TrepRecord>,
) -> ExtendsModel {
    ExtendsModel { tracks: views(tracks@), mehd_fragment_duration, leva: opt_view(leva), treps: views(treps@) }
}

/// Parses the movie extends box.
pub fn parse_mvex(
    body: &[u8],
    tracks: &mut Vec<Track>,
    mehd_fragment_duration: &mut Option<u64>,
    leva: &mut Option<LevaRecord>,
    treps: &mut Vec<TrepRecord>,
) -> (r: Result<()>)
    ensures
        (extends_of(*final(tracks), *final(mehd_fragment_duration), *final(leva), *final(treps)), r) == mvex_from(
            body@,
            0,
            extends_of(*old(tracks), *old(mehd_fragment_duration), *old(leva), *old(treps)),
        ),
{
    let mut pos: usize = 0;
    let ghost s0 = extends_of(*tracks, *mehd_fragment_duration, *leva, *treps);
    while pos < body.len()
        invariant
            pos <= body@.len(),
            s0 == extends_of(*old(tracks), *old(mehd_fragment_duration), *old(leva), *old(treps)),
            mvex_from(body@, 0, s0) == mvex_from(
                body@,
                pos as int,
                extends_of(*tracks, *mehd_fragment_duration, *leva, *treps),
            ),
        decreases body@.len() - pos,
    {
        let c = next_child(body, pos)?;
        if c.kind == TREX {
            let d = c.body()?;
            parse_trex(d, tracks)?;
        } else if c.kind == MEHD {
            let d = c.body()?;
            if let Ok(n) = parse_mehd(d) {
                if mehd_fragment_duration.is_none() {
                    *mehd_fragment_duration = Some(n);
                }
            }
        } else if c.kind == LEVA {
            let d = c.body()?;
            if leva.is_none() {
                if let Ok(l) = parse_leva(d) {
                    *leva = Some(l);
                }
            }
        } else if c.kind == TREP {
            let d = c.body()?;
            if let Ok(t) = parse_trep(d) {
                proof { lemma_views_push(treps@, t); }
                treps.push(t);
            }
        }
        pos = c.next;
    }
    Ok(())
}

/// What the movie header says.
pub open spec fn mvhd_of(m: MovieModel, b: Seq<u8>) -> Outcome<MovieModel> {
    if b.len() == 0 {
        (m, Err(Error::invalid("MP4: mvhd empty")))
    } else if b[0] == 0 {
        if b.len() < 20 {
            (m, Err(Error::invalid("MP4: mvhd v0 too short")))
        } else {
            (MovieModel { movie_timescale: be32(b, 12), movie_duration: be32(b, 16) as u64, ..m }, Ok(()))
        }
    } else if b.len() < 32 {
        (m, Err(Error::invalid("MP4: mvhd v1 too short")))
    } else {
        (MovieModel { movie_timescale: be32(b, 20), movie_duration: be64(b, 24), ..m }, Ok(()))
    }
}

/// Parses the movie header.
pub fn parse_mvhd(body: &[u8], out: &mut ParsedMoov) -> (r: Result<()>)
    ensures
        (final(out)@, r) == mvhd_of(old(out)@, body@),
{
    if body.len() == 0 {
        return Err(Error::invalid("MP4: mvhd empty"));
    }
    if body[0] == 0 {
        if body.len() < 20 {
            return Err(Error::invalid("MP4: mvhd v0 too short"));
        }
        out.movie_timescale = read_u32(body, 12);
        out.movie_duration = read_u32(body, 16) as u64;
    } else {
        if body.len() < 32 {
            return Err(Error::invalid("MP4: mvhd v1 too short"));
        }
        out.movie_timescale = read_u32(body, 20);
        out.movie_duration = read_u64(body, 24);
    }
    Ok(())
}

/// What one child of the movie box says. A malformed protection system box is left out.
pub open spec fn moov_step(m: MovieModel, c: Child) -> Outcome<MovieModel> {
    if c.kind != TRAK && c.kind != MVHD && c.kind != UDTA && c.kind != META && c.kind != MVEX && c.kind != PSSH {
        (m, Ok(()))
    } else {
        match body_of(c) {
            Err(e) => (m, Err(e)),
            Ok(d) => if c.kind == TRAK {
                match trak_of(d) {
                    Err(e) => (m, Err(e)),
                    Ok(Some(t)) => (MovieModel { tracks: m.tracks.push(t), ..m }, Ok(())),
                    Ok(None) => (m, Ok(())),
                }
            } else if c.kind == MVHD {
                mvhd_of(m, d)
            } else if c.kind == UDTA {
                (MovieModel { metadata: udta_from(d, 0, m.metadata), ..m }, Ok(()))
            } else if c.kind == META {
                (MovieModel { metadata: meta_of(m.metadata, d), ..m }, Ok(()))
            } else if c.kind == MVEX {
                let (s, r) = mvex_from(
                    d,
                    0,
                    ExtendsModel {
                        tracks: m.tracks,
                        mehd_fragment_duration: m.mehd_fragment_duration,
                        leva: m.leva,
                        treps: m.treps,
                    },
                );
                (
                    MovieModel {
                        tracks: s.tracks,
                        mehd_fragment_duration: s.mehd_fragment_duration,
                        leva: s.leva,
                        treps: s.treps,
                        ..m
                    },
                    r,
                )
            } else {
                match pssh_of(d) {
                    Ok(p) => (MovieModel { psshes: m.psshes.push(p), ..m }, Ok(())),
                    Err(_) => (m, Ok(())),
                }
            },
        }
    }
}

/// What the movie box from byte `pos` on says.
pub open spec fn moov_from(b: Seq<u8>, pos: int, m: MovieModel) -> Outcome<MovieModel> {
    walk(b, pos, m, |m: MovieModel, c: Child| moov_step(m, c))
}

/// The content of a movie box.
pub open spec fn moov_of(b: Seq<u8>) -> Result<MovieModel> {
    match moov_from(b, 0, MovieModel::blank()) {
        (m, Ok(())) => Ok(m),
        (_, Err(e)) => Err(e),
    }
}

/// Whether one of the children from byte `pos` on is a track box with a media box.
pub open spec fn has_media_track(b: Seq<u8>, pos: int) -> bool
    decreases b.len() - pos,
{
    if pos >= b.len() {
        false
    } else {
        match header_at(b, pos) {
            Err(_) => false,
            Ok(h) => {
                let c = child_at(b, pos, h);
                (c.kind == TRAK && has_child(c.data, 0, MDIA)) || (next_pos(b, pos, h) > pos && has_media_track(
                    b,
                    next_pos(b, pos, h),
                ))
            },
        }
    }
}

proof fn lemma_mvex_tracks(b: Seq<u8>, s: ExtendsModel)
    ensures
        mvex_from(b, 0, s).0.tracks.len() == s.tracks.len(),
{
    let n = s.tracks.len();
    let inv = |s: ExtendsModel| s.tracks.len() == n;
    let step = |s: ExtendsModel, c: Child| mvex_step(s, c);
    assert forall|s: ExtendsModel, c: Child| inv(s) implies inv(#[trigger] step(s, c).0) by {
        if let Ok(d) = body_of(c) {
            lemma_track_index(s.tracks, be32(d, 4));
        }
    }
    lemma_walk_keeps(b, 0, s, step, inv);
    assert(mvex_from(b, 0, s) == walk(b, 0, s, step));
}

proof fn lemma_tracks_seen(b: Seq<u8>, pos: int, m: MovieModel)
    ensures
        ({
            let (n, r) = moov_from(b, pos, m);
            r is Ok ==> (n.tracks.len() > 0 <==> (m.tracks.len() > 0 || has_media_track(b, pos)))
        }),
    decreases b.len() - pos,
{
    if pos < b.len() {
        if let Ok(h) = header_at(b, pos) {
            let c = child_at(b, pos, h);
            let (m2, r) = moov_step(m, c);
            if let Ok(d) = body_of(c) {
                if c.kind == TRAK && trak_of(d) is Ok {
                    law_media_makes_track(d);
                }
                lemma_mvex_tracks(
                    d,
                    ExtendsModel {
                        tracks: m.tracks,
                        mehd_fragment_duration: m.mehd_fragment_duration,
                        leva: m.leva,
                        treps: m.treps,
                    },
                );
            }
            if r is Ok && next_pos(b, pos, h) > pos {
                lemma_tracks_seen(b, next_pos(b, pos, h), m2);
            }
        }
    }
}

/// A well-formed movie box has tracks exactly where it has a track box with a media box.
pub proof fn law_movie_tracks(b: Seq<u8>)
    requires
        moov_of(b) is Ok,
    ensures
        moov_of(b)->Ok_0.tracks.len() > 0 <==> has_media_track(b, 0),
{
    lemma_tracks_seen(b, 0, MovieModel::blank());
}

/// Parses a movie box.
pub fn parse_moov(moov: &[u8]) -> (r: Result<ParsedMoov>)
    ensures
        seen(r) == moov_of(moov@),
{
    let mut out = ParsedMoov::blank();
    let mut pos: usize = 0;
    while pos < moov.len()
        invariant
            pos <= moov@.len(),
            moov_from(moov@, 0, MovieModel::blank()) == moov_from(moov@, pos as int, out@),
        decreases moov@.len() - pos,
    {
        let c = next_child(moov, pos)?;
        if c.kind == TRAK {
            let d = c.body()?;
            if let Some(t) = parse_trak(d)? {
                proof { lemma_views_push(out.tracks@, t); }
                out.tracks.push(t);
            }
        } else if c.kind == MVHD {
            let d = c.body()?;
            parse_mvhd(d, &mut out)?;
        } else if c.kind == UDTA {
            let d = c.body()?;
            parse_udta(d, &mut out.metadata);
        } else if c.kind == META {
            let d = c.body()?;
            parse_meta(d, &mut out.metadata);
        } else if c.kind == MVEX {
            let d = c.body()?;
            parse_mvex(d, &mut out.tracks, &mut out.mehd_fragment_duration, &mut out.leva, &mut out.treps)?;
        } else if c.kind == PSSH {
            let d = c.body()?;
            if let Ok(p) = parse_pssh(d) {
                proof { lemma_views_push(out.psshes@, p); }
                out.psshes.push(p);
            }
        }
        pos = c.next;
    }
    Ok(out)
}

}
