//! What is read back of a file that was written: its movie and, fragment by fragment, its samples.
use vstd::prelude::*;
use crate::demux::all_fragments;
use crate::error::Error;
use crate::frag::{ftyp_bytes, init_moov_bytes, moof_len, moof_payload, FragTrackModel};
use crate::fragment::{FragModel, MoofModel, MoofPsshModel};
use crate::muxer::{fragment_bytes, header_of, next_number, segment_type, MuxModel};
use crate::roundtrip::{
    fragment_boxes_fit, fragment_fits, law_fragment_in_file, law_header_in_file, law_moof_round_trip,
    lemma_part_of_part, moof_result, part_at, same_tracks,
};
use crate::toplevel::{file_from, file_of, TopModel};
use crate::track::TrackModel;

verus! {

/// A fragment that was written: the muxer that wrote it, and the tracks with the samples in it.
pub type Written = (MuxModel, Seq<FragTrackModel>);

/// The bytes of the fragments from the `i`th on.
pub open spec fn all_bytes(frags: Seq<Written>, i: int) -> Seq<u8>
    decreases frags.len() - i,
{
    if i >= frags.len() { Seq::empty() } else { fragment_bytes(frags[i].0, frags[i].1) + all_bytes(frags, i + 1) }
}

/// Where the movie fragment of a fragment that starts at `pos` starts.
pub open spec fn moof_pos(w: Written, pos: int) -> int {
    pos + segment_type(w.0).len()
}

/// The number of a fragment.
pub open spec fn number_of(w: Written) -> u32 {
    next_number(w.0.sequence_number)
}

/// The movie fragments of the fragments from the `i`th on, where they start at `pos` in the file.
pub open spec fn moof_records(frags: Seq<Written>, i: int, pos: int) -> Seq<MoofModel>
    decreases frags.len() - i,
{
    if i >= frags.len() {
        Seq::empty()
    } else {
        let w = frags[i];
        seq![
            MoofModel {
                moof_start: moof_pos(w, pos) as u64,
                body: moof_payload(number_of(w), w.1, Some(moof_len(number_of(w), w.1))),
            },
        ] + moof_records(frags, i + 1, pos + fragment_bytes(w.0, w.1).len())
    }
}

/// What the fragments from the `i`th on are read back as.
pub open spec fn read_back(f: FragModel, frags: Seq<Written>, i: int, pos: int, movie: Seq<TrackModel>) -> FragModel
    decreases frags.len() - i,
{
    if i >= frags.len() {
        f
    } else {
        let w = frags[i];
        let start = moof_pos(w, pos) + moof_len(number_of(w), w.1) + 8;
        read_back(
            moof_result(f, w.1, 0, start, movie),
            frags,
            i + 1,
            pos + fragment_bytes(w.0, w.1).len(),
            movie,
        )
    }
}

/// Whether all fragments from the `i`th on, which start at `pos`, can be read back with the given movie.
pub open spec fn all_fit(frags: Seq<Written>, i: int, pos: int, movie: Seq<TrackModel>) -> bool
    decreases frags.len() - i,
{
    i >= frags.len() || ({
        let w = frags[i];
        &&& fragment_boxes_fit(w.0, w.1)
        &&& same_tracks(w.1, movie)
        &&& 0 <= moof_pos(w, pos) <= u64::MAX
        &&& fragment_fits(number_of(w), w.1, moof_pos(w, pos) as u64)
        &&& all_fit(frags, i + 1, pos + fragment_bytes(w.0, w.1).len(), movie)
    })
}

/// The fragments of a file are read as movie fragments, one after the other.
pub proof fn law_fragments_in_file(f: Seq<u8>, pos: int, frags: Seq<Written>, i: int, top: TopModel, movie: Seq<TrackModel>)
    requires
        f.len() <= u64::MAX,
        0 <= i <= frags.len(),
        part_at(f, pos, all_bytes(frags, i)),
        all_fit(frags, i, pos, movie),
    ensures
        file_from(f, pos, top) == file_from(
            f,
            pos + all_bytes(frags, i).len(),
            TopModel { moofs: top.moofs + moof_records(frags, i, pos), ..top },
        ),
    decreases frags.len() - i,
{
    if i < frags.len() {
        let w = frags[i];
        let x = fragment_bytes(w.0, w.1);
        let rest = all_bytes(frags, i + 1);
        lemma_part_of_part(f, pos, x, rest);
        law_fragment_in_file(f, pos, w.0, w.1, top);
        let row = MoofModel {
            moof_start: moof_pos(w, pos) as u64,
            body: moof_payload(number_of(w), w.1, Some(moof_len(number_of(w), w.1))),
        };
        let top2 = TopModel { moofs: top.moofs.push(row), ..top };
        law_fragments_in_file(f, pos + x.len(), frags, i + 1, top2, movie);
        assert(top.moofs.push(row) + moof_records(frags, i + 1, pos + x.len()) =~= top.moofs + moof_records(
            frags,
            i,
            pos,
        ));
    } else {
        assert(top.moofs + moof_records(frags, i, pos) =~= top.moofs);
    }
}

/// The movie fragments of a file are read back as the samples that they were made of.
pub proof fn law_fragments_read_back(
    moofs: Seq<MoofModel>,
    k: int,
    f: FragModel,
    psshes: Seq<MoofPsshModel>,
    frags: Seq<Written>,
    i: int,
    pos: int,
    movie: Seq<TrackModel>,
)
    requires
        0 <= i <= frags.len(),
        0 <= k,
        moofs.len() == k + moof_records(frags, i, pos).len(),
        moofs.subrange(k, moofs.len() as int) == moof_records(frags, i, pos),
        all_fit(frags, i, pos, movie),
    ensures
        all_fragments(moofs, k, f, psshes, movie) == (
            read_back(f, frags, i, pos, movie),
            psshes,
            Ok::<(), Error>(()),
        ),
    decreases frags.len() - i,
{
    if i < frags.len() {
        let w = frags[i];
        let records = moof_records(frags, i, pos);
        let next = pos + fragment_bytes(w.0, w.1).len();
        let start = moof_pos(w, pos) as u64;
        assert(moofs.subrange(k, moofs.len() as int)[0] == moofs[k]);
        assert(records[0] == moofs[k]);
        law_moof_round_trip(f, psshes, number_of(w), w.1, start, movie);
        let f2 = moof_result(f, w.1, 0, start + moof_len(number_of(w), w.1) + 8, movie);
        assert(moofs.subrange(k + 1, moofs.len() as int) =~= moof_records(frags, i + 1, next)) by {
            assert(records.subrange(1, records.len() as int) =~= moof_records(frags, i + 1, next));
            assert(moofs.subrange(k + 1, moofs.len() as int) =~= moofs.subrange(k, moofs.len() as int).subrange(
                1,
                moofs.len() - k,
            ));
        }
        law_fragments_read_back(moofs, k + 1, f2, psshes, frags, i + 1, next, movie);
    }
}

/// A file that was written, its header and then its fragments, is read back: it has a file type, the movie
/// box that was written, and the samples of all fragments, each with the place of its data in the file.
#[verifier::rlimit(40)]
pub proof fn law_file_round_trip(m: MuxModel, frags: Seq<Written>, f: FragModel, movie: Seq<TrackModel>)
    requires
        !m.header_written,
        ftyp_bytes(m.brand).len() < 0x1_0000_0000,
        init_moov_bytes(m.mvhd, m.tracks).len() < 0x1_0000_0000,
        (header_of(m).1->Ok_0 + all_bytes(frags, 0)).len() <= u64::MAX,
        all_fit(frags, 0, header_of(m).1->Ok_0.len() as int, movie),
    ensures
        ({
            let head = header_of(m).1->Ok_0;
            let moov = init_moov_bytes(m.mvhd, m.tracks);
            let pos = head.len() as int;
            let moofs = moof_records(frags, 0, pos);
            &&& file_of(head + all_bytes(frags, 0)) == Ok::<TopModel, Error>(
                TopModel {
                    saw_ftyp: true,
                    moov: Some(moov.subrange(8, moov.len() as int)),
                    moofs,
                    ..TopModel::blank()
                },
            )
            &&& all_fragments(moofs, 0, f, Seq::empty(), movie) == (
                read_back(f, frags, 0, pos, movie),
                Seq::<MoofPsshModel>::empty(),
                Ok::<(), Error>(()),
            )
        }),
{
    let head = header_of(m).1->Ok_0;
    let tail = all_bytes(frags, 0);
    let file = head + tail;
    let pos = head.len() as int;
    let moov = init_moov_bytes(m.mvhd, m.tracks);
    assert(file.subrange(0, file.len() as int) =~= head + tail);
    lemma_part_of_part(file, 0, head, tail);
    law_header_in_file(file, m);
    let top = TopModel { saw_ftyp: true, moov: Some(moov.subrange(8, moov.len() as int)), ..TopModel::blank() };
    law_fragments_in_file(file, pos, frags, 0, top, movie);
    let moofs = moof_records(frags, 0, pos);
    assert(top.moofs + moofs =~= moofs);
    assert(moofs.subrange(0, moofs.len() as int) =~= moofs);
    law_fragments_read_back(moofs, 0, f, Seq::empty(), frags, 0, pos, movie);
}

}
