//! How the boxes that describe a track are laid out: what is written field by field is read back.
use vstd::prelude::*;
use crate::auxinfo::{saio_of, saiz_of, subs_of};
use crate::bytes::{be16, be32, be64, enc32, enc64, s32, u32_of};
use crate::codelaws::{law_codes, name};
use crate::entries::stsd_of;
use crate::error::Error;
use crate::groups::{csgp_of, sbgp_of, sgpd_of};
use crate::layoutlaws::{at, lemma_at32, lemma_at64, lemma_peel};
use crate::movie::{mehd_of, mvhd_of, track_index, trex_of, MovieModel};
use crate::tables::{
    co64_of, cslg_of, ctts_of, padb_of, sdtp_of, stco_of, stdp_of, stsc_of, stsh_of, stss_of, stsz_of, stts_of, stz2_of,
    vmhd_of,
};
use crate::track::{CslgBox, ElstEntry, MediaType, SdtpEntry, TrackModel, TrexDefaults};
use crate::trak::{elst_of, hdlr_of, mdhd_of, stbl_box, tkhd_of};

verus! {

/// The bytes of `n` rows, one behind the other.
pub open spec fn rows(n: int, row: spec_fn(int) -> Seq<u8>) -> Seq<u8>
    decreases n,
{
    if n <= 0 { Seq::empty() } else { rows(n - 1, row) + row(n - 1) }
}

/// Whether each of `n` rows has `w` bytes.
pub open spec fn rows_wide(n: int, row: spec_fn(int) -> Seq<u8>, w: int) -> bool {
    forall|i: int| 0 <= i < n ==> (#[trigger] row(i)).len() == w
}

/// Rows that have the same number of bytes stand at multiples of it.
pub proof fn lemma_rows(b: Seq<u8>, q: int, n: int, row: spec_fn(int) -> Seq<u8>, w: int)
    requires
        0 <= n,
        rows_wide(n, row, w),
        at(b, q, rows(n, row)),
    ensures
        rows(n, row).len() == n * w,
        forall|i: int| 0 <= i < n ==> at(b, q + w * i, #[trigger] row(i)),
    decreases n,
{
    if n > 0 {
        lemma_peel(b, q, rows(n - 1, row), row(n - 1));
        lemma_rows(b, q, n - 1, row, w);
        assert(row(n - 1).len() == w);
        assert(n * w == (n - 1) * w + w) by (nonlinear_arith);
        assert((n - 1) * w == w * (n - 1)) by (nonlinear_arith);
    } else {
        assert(0 * w == 0);
    }
}

/// A table: a version with flags, how many rows there are, and the rows.
pub open spec fn table_layout(v: Seq<u8>, n: int, row: spec_fn(int) -> Seq<u8>) -> Seq<u8> {
    v + enc32(n as u32) + rows(n, row)
}

proof fn lemma_table(b: Seq<u8>, v: Seq<u8>, n: int, row: spec_fn(int) -> Seq<u8>, w: int)
    requires
        v.len() == 4,
        0 <= n <= u32::MAX,
        0 <= w,
        rows_wide(n, row, w),
        at(b, 0, table_layout(v, n, row)),
    ensures
        be32(b, 4) == n,
        8 + n * w <= b.len(),
        forall|i: int| 0 <= i < n ==> at(b, 8 + w * i, #[trigger] row(i)),
        b[0] == v[0],
{
    lemma_peel(b, 0, v + enc32(n as u32), rows(n, row));
    lemma_peel(b, 0, v, enc32(n as u32));
    lemma_at32(b, 4, n as u32);
    lemma_rows(b, 8, n, row, w);
    assert(b.subrange(0, 4)[0] == b[0]);
}

/// The bytes of a row of two numbers.
pub open spec fn two(a: u32, b: u32) -> Seq<u8> {
    enc32(a) + enc32(b)
}

pub proof fn lemma_two(b: Seq<u8>, q: int, x: u32, y: u32)
    requires
        at(b, q, two(x, y)),
    ensures
        be32(b, q) == x,
        be32(b, q + 4) == y,
{
    lemma_peel(b, q, enc32(x), enc32(y));
    lemma_at32(b, q, x);
    lemma_at32(b, q + 4, y);
}

/// A row of the time to sample table is a number of samples and how long each lasts.
pub proof fn law_stts_layout(b: Seq<u8>, v: Seq<u8>, x: Seq<(u32, u32)>)
    requires
        v.len() == 4,
        x.len() <= u32::MAX,
        at(b, 0, table_layout(v, x.len() as int, |i: int| two(x[i].0, x[i].1))),
    ensures
        stts_of(b) == Ok::<Seq<(u32, u32)>, Error>(x),
{
    let row = |i: int| two(x[i].0, x[i].1);
    let n = x.len() as int;
    lemma_table(b, v, n, row, 8);
    assert forall|i: int| 0 <= i < n implies be32(b, 8 + 8 * i) == (#[trigger] x[i]).0 && be32(b, 8 + 8 * i + 4)
        == x[i].1 by {
        assert(at(b, 8 + 8 * i, row(i)));
        lemma_two(b, 8 + 8 * i, x[i].0, x[i].1);
    }
    assert(stts_of(b)->Ok_0 =~= x);
}

/// A row of the shadow sync table is a sample and the one that stands in for it.
pub proof fn law_stsh_layout(b: Seq<u8>, v: Seq<u8>, x: Seq<(u32, u32)>)
    requires
        v.len() == 4,
        x.len() <= u32::MAX,
        at(b, 0, table_layout(v, x.len() as int, |i: int| two(x[i].0, x[i].1))),
    ensures
        stsh_of(b) == Ok::<Seq<(u32, u32)>, Error>(x),
{
    law_stts_layout(b, v, x);
    assert(stsh_of(b)->Ok_0 =~= x);
}

/// A row of the composition offset table is a number of samples and how much later each is shown, which may be
/// negative.
pub proof fn law_ctts_layout(b: Seq<u8>, v: Seq<u8>, x: Seq<(u32, i32)>)
    requires
        v.len() == 4,
        x.len() <= u32::MAX,
        at(b, 0, table_layout(v, x.len() as int, |i: int| two(x[i].0, u32_of(x[i].1)))),
    ensures
        ctts_of(b) == Ok::<Seq<(u32, i32)>, Error>(x),
{
    let row = |i: int| two(x[i].0, u32_of(x[i].1));
    let n = x.len() as int;
    lemma_table(b, v, n, row, 8);
    assert forall|i: int| 0 <= i < n implies be32(b, 8 + 8 * i) == (#[trigger] x[i]).0 && s32(be32(b, 12 + 8 * i))
        == x[i].1 by {
        assert(at(b, 8 + 8 * i, row(i)));
        lemma_two(b, 8 + 8 * i, x[i].0, u32_of(x[i].1));
    }
    assert(ctts_of(b)->Ok_0 =~= x);
}

/// A row of the sample to chunk table is a first chunk, a number of samples and a sample description.
pub proof fn law_stsc_layout(b: Seq<u8>, v: Seq<u8>, x: Seq<(u32, u32, u32)>)
    requires
        v.len() == 4,
        x.len() <= u32::MAX,
        at(b, 0, table_layout(v, x.len() as int, |i: int| two(x[i].0, x[i].1) + enc32(x[i].2))),
    ensures
        stsc_of(b) == Ok::<Seq<(u32, u32, u32)>, Error>(x),
{
    let row = |i: int| two(x[i].0, x[i].1) + enc32(x[i].2);
    let n = x.len() as int;
    lemma_table(b, v, n, row, 12);
    assert forall|i: int| 0 <= i < n implies be32(b, 8 + 12 * i) == (#[trigger] x[i]).0 && be32(b, 12 + 12 * i)
        == x[i].1 && be32(b, 16 + 12 * i) == x[i].2 by {
        assert(at(b, 8 + 12 * i, row(i)));
        lemma_peel(b, 8 + 12 * i, two(x[i].0, x[i].1), enc32(x[i].2));
        lemma_two(b, 8 + 12 * i, x[i].0, x[i].1);
        lemma_at32(b, 16 + 12 * i, x[i].2);
    }
    assert(stsc_of(b)->Ok_0 =~= x);
}

proof fn lemma_words(b: Seq<u8>, v: Seq<u8>, x: Seq<u32>)
    requires
        v.len() == 4,
        x.len() <= u32::MAX,
        at(b, 0, table_layout(v, x.len() as int, |i: int| enc32(x[i]))),
    ensures
        be32(b, 4) == x.len(),
        8 + x.len() * 4 <= b.len(),
        forall|i: int| 0 <= i < x.len() ==> be32(b, 8 + 4 * i) == #[trigger] x[i],
{
    let row = |i: int| enc32(x[i]);
    let n = x.len() as int;
    lemma_table(b, v, n, row, 4);
    assert forall|i: int| 0 <= i < n implies be32(b, 8 + 4 * i) == #[trigger] x[i] by {
        assert(at(b, 8 + 4 * i, row(i)));
        lemma_at32(b, 8 + 4 * i, x[i]);
    }
}

/// The sync sample table lists samples.
pub proof fn law_stss_layout(b: Seq<u8>, v: Seq<u8>, x: Seq<u32>)
    requires
        v.len() == 4,
        x.len() <= u32::MAX,
        at(b, 0, table_layout(v, x.len() as int, |i: int| enc32(x[i]))),
    ensures
        stss_of(b) == Ok::<Seq<u32>, Error>(x),
{
    lemma_words(b, v, x);
    assert(stss_of(b)->Ok_0 =~= x);
}

/// The chunk offset table lists places, in 32 bits each.
pub proof fn law_stco_layout(b: Seq<u8>, v: Seq<u8>, x: Seq<u32>)
    requires
        v.len() == 4,
        x.len() <= u32::MAX,
        at(b, 0, table_layout(v, x.len() as int, |i: int| enc32(x[i]))),
    ensures
        stco_of(b) matches Ok(y) && {
            &&& y.len() == x.len()
            &&& forall|i: int| 0 <= i < x.len() ==> #[trigger] y[i] == x[i]
        },
{
    lemma_words(b, v, x);
}

/// The long chunk offset table lists places, in 64 bits each.
pub proof fn law_co64_layout(b: Seq<u8>, v: Seq<u8>, x: Seq<u64>)
    requires
        v.len() == 4,
        x.len() <= u32::MAX,
        at(b, 0, table_layout(v, x.len() as int, |i: int| enc64(x[i]))),
    ensures
        co64_of(b) == Ok::<Seq<u64>, Error>(x),
{
    let row = |i: int| enc64(x[i]);
    let n = x.len() as int;
    lemma_table(b, v, n, row, 8);
    assert forall|i: int| 0 <= i < n implies be64(b, 8 + 8 * i) == #[trigger] x[i] by {
        assert(at(b, 8 + 8 * i, row(i)));
        lemma_at64(b, 8 + 8 * i, x[i]);
    }
    assert(co64_of(b)->Ok_0 =~= x);
}

/// The sample size table lists sizes behind a 0.
pub proof fn law_stsz_layout(b: Seq<u8>, v: Seq<u8>, x: Seq<u32>)
    requires
        v.len() == 4,
        x.len() <= u32::MAX,
        at(b, 0, v + enc32(0) + enc32(x.len() as u32) + rows(x.len() as int, |i: int| enc32(x[i]))),
    ensures
        stsz_of(b) == Ok::<Seq<u32>, Error>(x),
{
    let row = |i: int| enc32(x[i]);
    let n = x.len() as int;
    lemma_peel(b, 0, v + enc32(0) + enc32(n as u32), rows(n, row));
    lemma_peel(b, 0, v + enc32(0), enc32(n as u32));
    lemma_peel(b, 0, v, enc32(0));
    lemma_at32(b, 4, 0);
    lemma_at32(b, 8, n as u32);
    lemma_rows(b, 12, n, row, 4);
    assert forall|i: int| 0 <= i < n implies be32(b, 12 + 4 * i) == #[trigger] x[i] by {
        assert(at(b, 12 + 4 * i, row(i)));
        lemma_at32(b, 12 + 4 * i, x[i]);
    }
    assert(stsz_of(b)->Ok_0 =~= x);
}

/// A sample size table with a size has as many samples of that size as it says.
pub proof fn law_stsz_uniform(b: Seq<u8>, v: Seq<u8>, size: u32, n: u32)
    requires
        v.len() == 4,
        size > 0,
        at(b, 0, v + enc32(size) + enc32(n)),
    ensures
        stsz_of(b) == Ok::<Seq<u32>, Error>(Seq::new(n as nat, |i: int| size)),
{
    lemma_peel(b, 0, v + enc32(size), enc32(n));
    lemma_peel(b, 0, v, enc32(size));
    lemma_at32(b, 4, size);
    lemma_at32(b, 8, n);
    assert(stsz_of(b)->Ok_0 =~= Seq::new(n as nat, |i: int| size));
}

/// The compact sample size table has sizes of 4, 8 or 16 bits, the first of two in a byte in its high half.
pub proof fn law_stz2_layout(b: Seq<u8>, n: u32)
    requires
        b.len() >= 12,
        at(b, 8, enc32(n)),
    ensures
        b[7] == 4 && b.len() >= 12 + (n + 1) / 2 ==> (stz2_of(b) matches Ok(x) && x.len() == n && forall|i: int|
            0 <= i < n ==> #[trigger] x[i] == (if i % 2 == 0 { b[12 + i / 2] as int / 16 } else { b[12 + i / 2] as int % 16 })),
        b[7] == 8 && b.len() >= 12 + n ==> (stz2_of(b) matches Ok(x) && x.len() == n && forall|i: int|
            0 <= i < n ==> #[trigger] x[i] == b[12 + i]),
        b[7] == 16 && b.len() >= 12 + 2 * n ==> (stz2_of(b) matches Ok(x) && x.len() == n && forall|i: int|
            0 <= i < n ==> #[trigger] x[i] == b[12 + 2 * i] * 0x100 + b[12 + 2 * i + 1]),
        b[7] != 4 && b[7] != 8 && b[7] != 16 ==> stz2_of(b) is Err,
{
    lemma_at32(b, 8, n);
    reveal(be16);
}

/// A table that says it has more rows than there are is refused.
pub proof fn law_tables_refused(b: Seq<u8>, n: u32)
    requires
        b.len() >= 8,
        at(b, 4, enc32(n)),
    ensures
        b.len() < 8 + 8 * n ==> stts_of(b) is Err && ctts_of(b) is Err && co64_of(b) is Err && stsh_of(b) is Err,
        b.len() < 8 + 12 * n ==> stsc_of(b) is Err,
        b.len() < 8 + 4 * n ==> stss_of(b) is Err && stco_of(b) is Err,
{
    lemma_at32(b, 4, n);
}

/// The sample dependency table has four fields of two bits in each byte.
pub proof fn law_sdtp_layout(v: Seq<u8>, d: Seq<u8>)
    requires
        v.len() == 4,
    ensures
        sdtp_of(v + d) matches Ok(x) && x.len() == d.len() && forall|i: int| 0 <= i < d.len() ==> fields_of(#[trigger] x[i], d[i]),
{
    let b = v + d;
    let x = sdtp_of(b)->Ok_0;
    assert forall|i: int| 0 <= i < d.len() implies fields_of(#[trigger] x[i], d[i]) by {
        assert(b[4 + i] == d[i]);
        lemma_fields(d[i]);
    }
}

proof fn lemma_fields(d: u8)
    ensures
        fields_of(crate::tables::sdtp_entry(d), d),
{
    let n = d as int;
    assert(n == n / 4 * 4 + n % 4);
    assert(n / 4 == n / 16 * 4 + n / 4 % 4);
    assert(n / 16 == n / 64 * 4 + n / 16 % 4);
}

/// Whether the fields are those in a byte.
pub open spec fn fields_of(x: SdtpEntry, d: u8) -> bool {
    &&& d == x.is_leading * 64 + x.sample_depends_on * 16 + x.sample_is_depended_on * 4 + x.sample_has_redundancy
    &&& x.sample_depends_on < 4
    &&& x.sample_is_depended_on < 4
    &&& x.sample_has_redundancy < 4
}

/// The degradation priorities are 16 bits each, the padding bits three bits in each half of a byte.
pub proof fn law_stdp_padb_layout(b: Seq<u8>, n: u32)
    requires
        b.len() >= 8,
        at(b, 4, enc32(n)),
    ensures
        stdp_of(b) matches Ok(x) && x.len() == (b.len() - 4) / 2 && forall|i: int|
            0 <= i < x.len() ==> #[trigger] x[i] == b[4 + 2 * i] * 0x100 + b[4 + 2 * i + 1],
        b.len() >= 8 + (n + 1) / 2 ==> (padb_of(b) matches Ok(x) && x.len() == n && forall|i: int|
            0 <= i < n ==> #[trigger] x[i] == (if i % 2 == 0 { b[8 + i / 2] as int / 16 % 8 } else { b[8 + i / 2] as int % 8 })),
        b.len() < 8 + (n + 1) / 2 ==> padb_of(b) is Err,
{
    lemma_at32(b, 4, n);
    reveal(be16);
}

/// The composition to decode box has five times, in 32 or in 64 bits by its version.
pub proof fn law_cslg_layout(b: Seq<u8>, x: CslgBox)
    requires
        ({
            let f = seq![
                x.composition_to_dts_shift,
                x.least_decode_to_display_delta,
                x.greatest_decode_to_display_delta,
                x.composition_start_time,
                x.composition_end_time,
            ];
            ||| b.len() >= 24 && b[0] == 0 && forall|i: int| 0 <= i < 5 ==> i32::MIN <= #[trigger] f[i] <= i32::MAX && at(
                b,
                4 + 4 * i,
                enc32(u32_of(f[i] as i32)),
            )
            ||| b.len() >= 44 && b[0] == 1 && forall|i: int| 0 <= i < 5 ==> at(b, 4 + 8 * i, enc64(u64_of(#[trigger] f[i])))
        }),
    ensures
        cslg_of(b) == Ok::<CslgBox, Error>(x),
{
    let f = seq![
        x.composition_to_dts_shift,
        x.least_decode_to_display_delta,
        x.greatest_decode_to_display_delta,
        x.composition_start_time,
        x.composition_end_time,
    ];
    assert forall|i: int| 0 <= i < 5 implies crate::tables::cslg_field(b, i) == #[trigger] f[i] by {
        if b[0] == 0 {
            lemma_at32(b, 4 + 4 * i, u32_of(f[i] as i32));
        } else {
            lemma_at64(b, 4 + 8 * i, u64_of(f[i]));
        }
    }
    assert(f[0] == x.composition_to_dts_shift && f[1] == x.least_decode_to_display_delta && f[2]
        == x.greatest_decode_to_display_delta && f[3] == x.composition_start_time && f[4] == x.composition_end_time);
    assert(crate::tables::cslg_field(b, 0) == f[0]);
    assert(crate::tables::cslg_field(b, 1) == f[1]);
    assert(crate::tables::cslg_field(b, 2) == f[2]);
    assert(crate::tables::cslg_field(b, 3) == f[3]);
    assert(crate::tables::cslg_field(b, 4) == f[4]);
}

/// The pattern of a signed 64-bit number.
pub open spec fn u64_of(x: i64) -> u64 {
    if x >= 0 { x as u64 } else { (x + 0x1_0000_0000_0000_0000) as u64 }
}

/// The video media header has a mode and three colour components.
pub proof fn law_vmhd_layout(b: Seq<u8>)
    requires
        b.len() >= 12,
    ensures
        vmhd_of(b) matches Ok(x) && {
            &&& x.graphicsmode == b[4] * 0x100 + b[5]
            &&& x.opcolor[0] == b[6] * 0x100 + b[7]
            &&& x.opcolor[1] == b[8] * 0x100 + b[9]
            &&& x.opcolor[2] == b[10] * 0x100 + b[11]
        },
{
    reveal(be16);
}

/// The edit list has, for each edit, its duration, the media time that it starts at (-1 for an empty edit) and a
/// rate, in 32 or in 64 bits by its version.
pub proof fn law_elst_layout(t: TrackModel, b: Seq<u8>, v: Seq<u8>, x: Seq<ElstEntry>)
    requires
        v.len() == 4,
        x.len() <= u32::MAX,
        ({
            ||| v[0] == 0 && (forall|i: int|
                0 <= i < x.len() ==> (#[trigger] x[i]).segment_duration <= u32::MAX && i32::MIN <= x[i].media_time <= i32::MAX)
                && at(
                b,
                0,
                table_layout(
                    v,
                    x.len() as int,
                    |i: int| two(x[i].segment_duration as u32, u32_of(x[i].media_time as i32)) + enc32(x[i].media_rate),
                ),
            )
            ||| v[0] == 1 && at(
                b,
                0,
                table_layout(
                    v,
                    x.len() as int,
                    |i: int| enc64(x[i].segment_duration) + enc64(u64_of(x[i].media_time)) + enc32(x[i].media_rate),
                ),
            )
        }),
    ensures
        elst_of(t, b) == (TrackModel { elst: x, ..t }, Ok::<(), Error>(())),
{
    let n = x.len() as int;
    if v[0] == 0 {
        let row = |i: int| two(x[i].segment_duration as u32, u32_of(x[i].media_time as i32)) + enc32(x[i].media_rate);
        lemma_table(b, v, n, row, 12);
        assert forall|i: int| 0 <= i < n implies crate::trak::elst_entry_at(b, 8 + 12 * i) == #[trigger] x[i] by {
            let q = 8 + 12 * i;
            assert(at(b, q, row(i)));
            lemma_peel(
                b,
                q,
                two(x[i].segment_duration as u32, u32_of(x[i].media_time as i32)),
                enc32(x[i].media_rate),
            );
            lemma_two(b, q, x[i].segment_duration as u32, u32_of(x[i].media_time as i32));
            lemma_at32(b, q + 8, x[i].media_rate);
        }
    } else {
        let row = |i: int| enc64(x[i].segment_duration) + enc64(u64_of(x[i].media_time)) + enc32(x[i].media_rate);
        lemma_table(b, v, n, row, 20);
        assert forall|i: int| 0 <= i < n implies crate::trak::elst_entry_at(b, 8 + 20 * i) == #[trigger] x[i] by {
            let q = 8 + 20 * i;
            assert(at(b, q, row(i)));
            let d = enc64(x[i].segment_duration);
            let m = enc64(u64_of(x[i].media_time));
            lemma_peel(b, q, d + m, enc32(x[i].media_rate));
            lemma_peel(b, q, d, m);
            lemma_at64(b, q, x[i].segment_duration);
            lemma_at64(b, q + 8, u64_of(x[i].media_time));
            lemma_at32(b, q + 16, x[i].media_rate);
        }
    }
    assert(crate::trak::elst_entries(b, n as nat) =~= x);
}

/// Two times, in 32 or in 64 bits by the version.
pub open spec fn times(version: u8, a: u64, b: u64) -> Seq<u8> {
    if version == 0 { two(a as u32, b as u32) } else { enc64(a) + enc64(b) }
}

/// A time, in 32 or in 64 bits by the version.
pub open spec fn time(version: u8, a: u64) -> Seq<u8> {
    if version == 0 { enc32(a as u32) } else { enc64(a) }
}

proof fn lemma_header(b: Seq<u8>, v: Seq<u8>, created: u64, modified: u64, scale: u32, duration: u64)
    requires
        v.len() == 4,
        v[0] == 0 ==> duration <= u32::MAX,
        at(b, 0, v + times(v[0], created, modified) + enc32(scale) + time(v[0], duration)),
    ensures
        b[0] == v[0],
        v[0] == 0 ==> b.len() >= 20 && be32(b, 12) == scale && be32(b, 16) == duration,
        v[0] != 0 ==> b.len() >= 32 && be32(b, 20) == scale && be64(b, 24) == duration,
{
    let p = v + times(v[0], created, modified);
    lemma_peel(b, 0, p + enc32(scale), time(v[0], duration));
    lemma_peel(b, 0, p, enc32(scale));
    lemma_peel(b, 0, v, times(v[0], created, modified));
    assert(b.subrange(0, 4)[0] == b[0]);
    lemma_at32(b, p.len() as int, scale);
    if v[0] == 0 {
        lemma_at32(b, 16, duration as u32);
    } else {
        lemma_at64(b, 24, duration);
    }
}

/// The movie header gives the timescale and the duration behind two times.
pub proof fn law_mvhd_layout(m: MovieModel, b: Seq<u8>, v: Seq<u8>, created: u64, modified: u64, scale: u32, duration: u64)
    requires
        v.len() == 4,
        v[0] == 0 ==> duration <= u32::MAX,
        at(b, 0, v + times(v[0], created, modified) + enc32(scale) + time(v[0], duration)),
    ensures
        mvhd_of(m, b) == (MovieModel { movie_timescale: scale, movie_duration: duration, ..m }, Ok::<(), Error>(())),
{
    lemma_header(b, v, created, modified, scale, duration);
}

/// The media header gives the timescale and the duration of a track behind two times. A language follows.
pub proof fn law_mdhd_layout(t: TrackModel, b: Seq<u8>, v: Seq<u8>, created: u64, modified: u64, scale: u32, duration: u64)
    requires
        v.len() == 4,
        v[0] == 0 ==> duration <= u32::MAX,
        b.len() >= 24,
        at(b, 0, v + times(v[0], created, modified) + enc32(scale) + time(v[0], duration)),
    ensures
        mdhd_of(t, b) == (TrackModel { timescale: scale, duration: Some(duration), ..t }, Ok::<(), Error>(())),
{
    lemma_header(b, v, created, modified, scale, duration);
}

/// The track header gives the track's number behind two times.
pub proof fn law_tkhd_layout(t: TrackModel, b: Seq<u8>, v: Seq<u8>, created: u64, modified: u64, id: u32)
    requires
        v.len() == 4,
        at(b, 0, v + times(v[0], created, modified) + enc32(id)),
    ensures
        tkhd_of(t, b) == (TrackModel { track_id: id, ..t }, Ok::<(), Error>(())),
{
    let p = v + times(v[0], created, modified);
    lemma_peel(b, 0, p, enc32(id));
    lemma_peel(b, 0, v, times(v[0], created, modified));
    assert(b.subrange(0, 4)[0] == b[0]);
    lemma_at32(b, p.len() as int, id);
}

/// The fragment duration is in 32 or in 64 bits by the version; there are two versions.
pub proof fn law_mehd_layout(b: Seq<u8>, v: Seq<u8>, duration: u64)
    requires
        v.len() == 4,
        v[0] == 0 ==> duration <= u32::MAX,
        at(b, 0, v + time(v[0], duration)),
    ensures
        v[0] <= 1 ==> mehd_of(b) == Ok::<u64, Error>(duration),
        v[0] > 1 ==> mehd_of(b) is Err,
{
    lemma_peel(b, 0, v, time(v[0], duration));
    assert(b.subrange(0, 4)[0] == b[0]);
    if v[0] == 0 {
        lemma_at32(b, 4, duration as u32);
    } else {
        lemma_at64(b, 4, duration);
    }
}

/// The handler says of which kind the media is.
pub proof fn law_hdlr_layout(t: TrackModel, b: Seq<u8>, pre: Seq<u8>, code: u32)
    requires
        pre.len() == 8,
        at(b, 0, pre + enc32(code)),
    ensures
        ({
            let m = if code == name('s', 'o', 'u', 'n') {
                MediaType::Audio
            } else if code == name('v', 'i', 'd', 'e') {
                MediaType::Video
            } else if code == name('s', 'u', 'b', 't') || code == name('s', 'b', 't', 'l') || code == name(
                't',
                'e',
                'x',
                't',
            ) {
                MediaType::Subtitle
            } else {
                MediaType::Data
            };
            hdlr_of(t, b) == (TrackModel { media_type: m, ..t }, Ok::<(), Error>(()))
        }),
{
    lemma_peel(b, 0, pre, enc32(code));
    lemma_at32(b, 8, code);
    law_codes();
}

/// The defaults of the samples in fragments are those of the first track with their number; a number that no
/// track has is passed over.
pub proof fn law_trex_layout(tracks: Seq<TrackModel>, b: Seq<u8>, v: Seq<u8>, id: u32, d: TrexDefaults, k: int)
    requires
        v.len() == 4,
        at(
            b,
            0,
            v + enc32(id) + enc32(d.default_sample_description_index) + enc32(d.default_sample_duration) + enc32(
                d.default_sample_size,
            ) + enc32(d.default_sample_flags),
        ),
        0 <= k <= tracks.len(),
        k < tracks.len() ==> tracks[k].track_id == id,
        forall|j: int| 0 <= j < k ==> (#[trigger] tracks[j]).track_id != id,
    ensures
        k < tracks.len() ==> trex_of(tracks, b) == (
            tracks.update(k, TrackModel { trex: d, ..tracks[k] }),
            Ok::<(), Error>(()),
        ),
        k == tracks.len() ==> trex_of(tracks, b) == (tracks, Ok::<(), Error>(())),
{
    let x1 = v + enc32(id);
    let x2 = x1 + enc32(d.default_sample_description_index);
    let x3 = x2 + enc32(d.default_sample_duration);
    let x4 = x3 + enc32(d.default_sample_size);
    lemma_peel(b, 0, x4, enc32(d.default_sample_flags));
    lemma_peel(b, 0, x3, enc32(d.default_sample_size));
    lemma_peel(b, 0, x2, enc32(d.default_sample_duration));
    lemma_peel(b, 0, x1, enc32(d.default_sample_description_index));
    lemma_peel(b, 0, v, enc32(id));
    lemma_at32(b, 4, id);
    lemma_at32(b, 8, d.default_sample_description_index);
    lemma_at32(b, 12, d.default_sample_duration);
    lemma_at32(b, 16, d.default_sample_size);
    lemma_at32(b, 20, d.default_sample_flags);
    lemma_index(tracks, id, k);
}

proof fn lemma_index(tracks: Seq<TrackModel>, id: u32, k: int)
    requires
        0 <= k <= tracks.len(),
        k < tracks.len() ==> tracks[k].track_id == id,
        forall|j: int| 0 <= j < k ==> (#[trigger] tracks[j]).track_id != id,
    ensures
        track_index(tracks, id) == k,
    decreases k,
{
    if k > 0 {
        assert(tracks[0].track_id != id);
        let rest = tracks.drop_first();
        assert forall|j: int| 0 <= j < k - 1 implies (#[trigger] rest[j]).track_id != id by {
            assert(rest[j] == tracks[j + 1]);
        }
        lemma_index(rest, id, k - 1);
    }
}

/// A table of the sample table box becomes the table of that name of the track; nothing else of the track
/// changes.
pub proof fn law_table_of_track(t: TrackModel, d: Seq<u8>)
    ensures
        stts_of(d) matches Ok(x) ==> stbl_box(t, name('s', 't', 't', 's'), d) == (
            TrackModel { stts: x, ..t },
            Ok::<(), Error>(()),
        ),
        stsc_of(d) matches Ok(x) ==> stbl_box(t, name('s', 't', 's', 'c'), d) == (
            TrackModel { stsc: x, ..t },
            Ok::<(), Error>(()),
        ),
        stsz_of(d) matches Ok(x) ==> stbl_box(t, name('s', 't', 's', 'z'), d) == (
            TrackModel { stsz: x, ..t },
            Ok::<(), Error>(()),
        ),
        stz2_of(d) matches Ok(x) ==> stbl_box(t, name('s', 't', 'z', '2'), d) == (
            TrackModel { stsz: x, ..t },
            Ok::<(), Error>(()),
        ),
        stco_of(d) matches Ok(x) ==> stbl_box(t, name('s', 't', 'c', 'o'), d) == (
            TrackModel { chunk_offsets: x, ..t },
            Ok::<(), Error>(()),
        ),
        co64_of(d) matches Ok(x) ==> stbl_box(t, name('c', 'o', '6', '4'), d) == (
            TrackModel { chunk_offsets: x, ..t },
            Ok::<(), Error>(()),
        ),
        stss_of(d) matches Ok(x) ==> stbl_box(t, name('s', 't', 's', 's'), d) == (
            TrackModel { stss: x, ..t },
            Ok::<(), Error>(()),
        ),
        stsh_of(d) matches Ok(x) ==> stbl_box(t, name('s', 't', 's', 'h'), d) == (
            TrackModel { stsh: x, ..t },
            Ok::<(), Error>(()),
        ),
        ctts_of(d) matches Ok(x) ==> stbl_box(t, name('c', 't', 't', 's'), d) == (
            TrackModel { ctts: x, ..t },
            Ok::<(), Error>(()),
        ),
        sdtp_of(d) matches Ok(x) ==> stbl_box(t, name('s', 'd', 't', 'p'), d) == (
            TrackModel { sdtp: x, ..t },
            Ok::<(), Error>(()),
        ),
        stdp_of(d) matches Ok(x) ==> stbl_box(t, name('s', 't', 'd', 'p'), d) == (
            TrackModel { stdp: x, ..t },
            Ok::<(), Error>(()),
        ),
        padb_of(d) matches Ok(x) ==> stbl_box(t, name('p', 'a', 'd', 'b'), d) == (
            TrackModel { padb: x, ..t },
            Ok::<(), Error>(()),
        ),
        cslg_of(d) matches Ok(x) ==> stbl_box(t, name('c', 's', 'l', 'g'), d) == (
            TrackModel { cslg: Some(x), ..t },
            Ok::<(), Error>(()),
        ),
{
    law_codes();
}

/// Boxes of the sample table box of which a track may have several are put behind those that it has.
pub proof fn law_boxes_of_track(t: TrackModel, d: Seq<u8>)
    ensures
        sbgp_of(d) matches Ok(x) ==> stbl_box(t, name('s', 'b', 'g', 'p'), d) == (
            TrackModel { sbgp: t.sbgp.push(x), ..t },
            Ok::<(), Error>(()),
        ),
        sgpd_of(d) matches Ok(x) ==> stbl_box(t, name('s', 'g', 'p', 'd'), d) == (
            TrackModel { sgpd: t.sgpd.push(x), ..t },
            Ok::<(), Error>(()),
        ),
        csgp_of(d) matches Ok(x) ==> stbl_box(t, name('c', 's', 'g', 'p'), d) == (
            TrackModel { csgp: t.csgp.push(x), ..t },
            Ok::<(), Error>(()),
        ),
        subs_of(d) matches Ok(x) ==> stbl_box(t, name('s', 'u', 'b', 's'), d) == (
            TrackModel { subs: t.subs.push(x), ..t },
            Ok::<(), Error>(()),
        ),
        saiz_of(d) matches Ok(x) ==> stbl_box(t, name('s', 'a', 'i', 'z'), d) == (
            TrackModel { saiz: t.saiz.push(x), ..t },
            Ok::<(), Error>(()),
        ),
        saio_of(d) matches Ok(x) ==> stbl_box(t, name('s', 'a', 'i', 'o'), d) == (
            TrackModel { saio: t.saio.push(x), ..t },
            Ok::<(), Error>(()),
        ),
        stbl_box(t, name('s', 't', 's', 'd'), d) == stsd_of(t, d),
        stts_of(d) is Err ==> stbl_box(t, name('s', 't', 't', 's'), d).1 is Err,
        stsc_of(d) is Err ==> stbl_box(t, name('s', 't', 's', 'c'), d).1 is Err,
        stsz_of(d) is Err ==> stbl_box(t, name('s', 't', 's', 'z'), d).1 is Err,
        stco_of(d) is Err ==> stbl_box(t, name('s', 't', 'c', 'o'), d).1 is Err,
        ctts_of(d) is Err ==> stbl_box(t, name('c', 't', 't', 's'), d).1 is Err,
{
    law_codes();
}

}
