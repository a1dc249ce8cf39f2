//! Boxes that are shorter than what they say they hold are refused.
use vstd::prelude::*;
use crate::bytes::{enc24, enc32};
use crate::cenc::{pssh_of, senc_of, tenc_of};
use crate::fragment::{tfdt_of, tfhd_of, trun_of, TrafState};
use crate::index::{prft_of, sidx_of, tfra_of};
use crate::indexlaws::{enc16, lemma_at16};
use crate::layoutlaws::{at, bit, lemma_at32, lemma_version};
use crate::movie::{mvhd_of, trex_of, MovieModel};
use crate::tables::{stsz_of, stz2_of};
use crate::track::TrackModel;
use crate::trak::{elst_of, hdlr_of, mdhd_of, tkhd_of};

verus! {

/// Sample sizes, of which there are `n`, that are not all there.
pub proof fn law_sizes_refused(b: Seq<u8>, n: u32)
    requires
        b.len() >= 12,
        at(b, 8, enc32(n)),
    ensures
        at(b, 4, enc32(0)) && b.len() < 12 + 4 * n ==> stsz_of(b) is Err,
        b[7] == 4 && b.len() < 12 + (n + 1) / 2 ==> stz2_of(b) is Err,
        b[7] == 8 && b.len() < 12 + n ==> stz2_of(b) is Err,
        b[7] == 16 && b.len() < 12 + 2 * n ==> stz2_of(b) is Err,
{
    lemma_at32(b, 8, n);
    if at(b, 4, enc32(0)) {
        lemma_at32(b, 4, 0);
    }
}

/// Headers and tables that are shorter than their fields.
pub proof fn law_heads_refused(t: TrackModel, m: MovieModel, tracks: Seq<TrackModel>, b: Seq<u8>, n: u32)
    requires
        b.len() > 0,
    ensures
        b.len() < 24 ==> mdhd_of(t, b).1 is Err && trex_of(tracks, b).1 is Err,
        b.len() < 32 && b[0] != 0 ==> mdhd_of(t, b).1 is Err && mvhd_of(m, b).1 is Err,
        b.len() < 20 ==> mvhd_of(m, b).1 is Err,
        b.len() < 16 || b[0] != 0 && b.len() < 24 ==> tkhd_of(t, b).1 is Err,
        b.len() < 12 ==> hdlr_of(t, b).1 is Err,
        b.len() < 8 ==> elst_of(t, b).1 is Err,
        b.len() >= 8 && at(b, 4, enc32(n)) && b.len() < 8 + 12 * n ==> elst_of(t, b).1 is Err,
        b.len() >= 8 && at(b, 4, enc32(n)) && b[0] == 1 && b.len() < 8 + 20 * n ==> elst_of(t, b).1 is Err,
{
    if b.len() >= 8 && at(b, 4, enc32(n)) {
        lemma_at32(b, 4, n);
    }
}

/// Index boxes that are shorter than their fields.
pub proof fn law_indexes_refused(b: Seq<u8>, end: u64, n: u32)
    requires
        b.len() > 0,
    ensures
        b.len() < 24 ==> sidx_of(b, end) is Err,
        b[0] != 0 && b.len() < 32 ==> sidx_of(b, end) is Err,
        b[0] == 0 && n < 0x1_0000 && at(b, 22, enc16(n as int)) && b.len() < 24 + 12 * n ==> sidx_of(b, end) is Err,
        b[0] != 0 && n < 0x1_0000 && at(b, 30, enc16(n as int)) && b.len() < 32 + 12 * n ==> sidx_of(b, end) is Err,
        b.len() < 20 || b[0] != 0 && b.len() < 24 ==> prft_of(b) is Err,
        b.len() < 16 ==> tfra_of(b) is Err,
        b.len() >= 16 && at(b, 12, enc32(n)) && b.len() < 16 + 11 * n ==> tfra_of(b) is Err,
{
    if n < 0x1_0000 && at(b, 22, enc16(n as int)) {
        lemma_at16(b, 22, n as int);
    }
    if n < 0x1_0000 && at(b, 30, enc16(n as int)) {
        lemma_at16(b, 30, n as int);
    }
    if b.len() >= 16 && at(b, 12, enc32(n)) {
        lemma_at32(b, 12, n);
        let w = crate::index::tfra_row(b);
        assert(w >= 11);
        assert(n * w >= 11 * n) by (nonlinear_arith)
            requires w >= 11, n >= 0;
    }
}

/// Boxes on protection that are shorter than their fields.
pub proof fn law_protection_refused(b: Seq<u8>, n: u32, iv_size: u8)
    ensures
        b.len() < 24 ==> tenc_of(b) is Err && pssh_of(b) is Err,
        b.len() >= 24 && b[6] == 1 && b[7] == 0 && (b.len() == 24 || b.len() < 25 + b[24]) ==> tenc_of(b) is Err,
        b.len() >= 24 && b[0] == 0 && at(b, 20, enc32(n)) && b.len() < 24 + n ==> pssh_of(b) is Err,
        b.len() >= 24 && b[0] != 0 && at(b, 20, enc32(n)) && b.len() < 28 + 16 * n ==> pssh_of(b) is Err,
        b.len() < 8 ==> senc_of(b, iv_size) is Err,
{
    if at(b, 20, enc32(n)) {
        lemma_at32(b, 20, n);
    }
}

/// How many bytes a field has that a bit announces.
pub open spec fn announced(flags: u32, weight: int, n: int) -> int {
    if bit(flags, weight) { n } else { 0 }
}

/// Boxes of a track fragment that are shorter than what their flags announce.
pub proof fn law_fragment_refused(
    b: Seq<u8>,
    v: u8,
    flags: u32,
    n: u32,
    s: TrafState,
    moof_start: u64,
    tracks: Seq<TrackModel>,
)
    requires
        flags < 0x100_0000,
    ensures
        b.len() < 8 ==> tfhd_of(s, b, moof_start, tracks).1 is Err && trun_of(b) is Err && tfdt_of(b) is Err,
        b.len() >= 8 && b.len() < 12 && b[0] == 1 ==> tfdt_of(b) is Err,
        b.len() >= 8 && at(b, 0, seq![v] + enc24(flags)) ==> {
            &&& b.len() < 8 + announced(flags, 1, 8) + announced(flags, 2, 4) + announced(flags, 8, 4) + announced(
                flags,
                0x10,
                4,
            ) + announced(flags, 0x20, 4) ==> tfhd_of(s, b, moof_start, tracks).1 is Err
            &&& at(b, 4, enc32(n)) && b.len() < 8 + announced(flags, 1, 4) + announced(flags, 4, 4) + (announced(
                flags,
                0x100,
                4,
            ) + announced(flags, 0x200, 4) + announced(flags, 0x400, 4) + announced(flags, 0x800, 4)) * n ==> trun_of(
                b,
            ) is Err
        },
{
    if b.len() >= 8 && at(b, 0, seq![v] + enc24(flags)) {
        lemma_version(b, v, flags);
        if at(b, 4, enc32(n)) {
            lemma_at32(b, 4, n);
        }
    }
}

}
