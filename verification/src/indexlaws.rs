//! How the boxes that index a file are laid out: what is written field by field is read back.
use vstd::prelude::*;
use crate::boxes::{boxed, items, walk, Child};
use crate::boxlaws::{lemma_rows, lemma_two, rows, time, times, two};
use crate::bytes::{be16, be32, code_at, enc32, enc64};
use crate::childlaws::{box_list, each_part, law_walk_in_order, lemma_first_part, parts_fit, Part};
use crate::codelaws::{law_codes, name};
use crate::error::{Error, Result};
use crate::index::{
    be_var, leva_entries, leva_entry_at, leva_of, mfra_from, mfra_step, pdin_of, prft_of, sidx_of, sidx_reference_at,
    tfra_entries, tfra_entry_at, tfra_number, tfra_of, tfra_row, tfra_widths, trep_children, trep_of, LevaEntry,
    PdinEntry, PrftRecord, SidxModel, SidxReference, TfraEntry, TfraModel, TrepChild, TrepModel,
};
use crate::layoutlaws::{at, lemma_at32, lemma_at64, lemma_peel, lemma_whole};

verus! {

/// The two bytes of a number.
pub open spec fn enc16(n: int) -> Seq<u8> {
    seq![(n / 0x100) as u8, (n % 0x100) as u8]
}

pub proof fn lemma_at16(b: Seq<u8>, q: int, n: int)
    requires
        0 <= n < 0x1_0000,
        at(b, q, enc16(n)),
    ensures
        be16(b, q) == n,
{
    reveal(be16);
    let w = b.subrange(q, q + 2);
    assert(w[0] == b[q] && w[1] == b[q + 1]);
}

/// The bytes of a reference of a segment index: its kind and size, its duration, and where it can be entered.
pub open spec fn reference_layout(r: SidxReference, delta: u32) -> Seq<u8> {
    two(
        ((if r.is_sidx { 0x8000_0000int } else { 0 }) + r.referenced_size) as u32,
        r.subsegment_duration,
    ) + enc32(((if r.starts_with_sap { 0x8000_0000int } else { 0 }) + r.sap_type * 0x1000_0000 + delta) as u32)
}

/// Whether a reference can be written.
pub open spec fn reference_fits(r: SidxReference, delta: u32) -> bool {
    r.referenced_size < 0x8000_0000 && r.sap_type < 8 && delta < 0x1000_0000
}

proof fn lemma_reference(b: Seq<u8>, q: int, r: SidxReference, delta: u32)
    requires
        reference_fits(r, delta),
        at(b, q, reference_layout(r, delta)),
    ensures
        sidx_reference_at(b, q) == r,
{
    let x = ((if r.is_sidx { 0x8000_0000int } else { 0 }) + r.referenced_size) as u32;
    let y = ((if r.starts_with_sap { 0x8000_0000int } else { 0 }) + r.sap_type * 0x1000_0000 + delta) as u32;
    lemma_peel(b, q, two(x, r.subsegment_duration), enc32(y));
    lemma_two(b, q, x, r.subsegment_duration);
    lemma_at32(b, q + 8, y);
}

/// A segment index gives the stream it is of, its timescale, when it starts, and its references; the data starts as
/// many bytes behind the index as it says.
pub proof fn law_sidx_layout(b: Seq<u8>, end: u64, v: Seq<u8>, offset: u64, x: SidxModel, deltas: Seq<u32>, gap: Seq<u8>)
    requires
        v.len() == 4,
        gap.len() == 2,
        x.references.len() < 0x1_0000,
        deltas.len() == x.references.len(),
        forall|i: int| 0 <= i < x.references.len() ==> reference_fits(#[trigger] x.references[i], deltas[i]),
        v[0] == 0 ==> x.earliest_presentation_time <= u32::MAX && offset <= u32::MAX,
        end + offset <= u64::MAX,
        x.first_byte_offset == end + offset,
        at(
            b,
            0,
            v + two(x.reference_id, x.timescale) + times(v[0], x.earliest_presentation_time, offset) + gap + enc16(
                x.references.len() as int,
            ) + rows(x.references.len() as int, |i: int| reference_layout(x.references[i], deltas[i])),
        ),
    ensures
        sidx_of(b, end) == Ok::<SidxModel, Error>(x),
{
    let n = x.references.len() as int;
    let row = |i: int| reference_layout(x.references[i], deltas[i]);
    let t = times(v[0], x.earliest_presentation_time, offset);
    let h1 = v + two(x.reference_id, x.timescale);
    let h2 = h1 + t;
    let h3 = h2 + gap;
    lemma_peel(b, 0, h3 + enc16(n), rows(n, row));
    lemma_peel(b, 0, h3, enc16(n));
    lemma_peel(b, 0, h2, gap);
    lemma_peel(b, 0, h1, t);
    lemma_peel(b, 0, v, two(x.reference_id, x.timescale));
    assert(b.subrange(0, 4)[0] == b[0]);
    lemma_two(b, 4, x.reference_id, x.timescale);
    let p = h2.len() as int;
    lemma_at16(b, p + 2, n);
    lemma_rows(b, p + 4, n, row, 12);
    if v[0] == 0 {
        lemma_two(b, 12, x.earliest_presentation_time as u32, offset as u32);
    } else {
        lemma_peel(b, 12, enc64(x.earliest_presentation_time), enc64(offset));
        lemma_at64(b, 12, x.earliest_presentation_time);
        lemma_at64(b, 20, offset);
    }
    assert forall|i: int| 0 <= i < n implies sidx_reference_at(b, p + 4 + 12 * i) == #[trigger] x.references[i] by {
        assert(at(b, p + 4 + 12 * i, row(i)));
        assert(reference_fits(x.references[i], deltas[i]));
        lemma_reference(b, p + 4 + 12 * i, x.references[i], deltas[i]);
    }
    assert(sidx_of(b, end)->Ok_0.references =~= x.references);
}

/// Progressive download information is pairs of a rate and a delay, to the end of the box.
pub proof fn law_pdin_layout(v: Seq<u8>, x: Seq<PdinEntry>)
    requires
        v.len() == 4,
    ensures
        pdin_of(v + rows(x.len() as int, |i: int| two(x[i].rate, x[i].initial_delay))) == Ok::<Seq<PdinEntry>, Error>(x),
{
    let n = x.len() as int;
    let row = |i: int| two(x[i].rate, x[i].initial_delay);
    let b = v + rows(n, row);
    lemma_whole(b);
    lemma_peel(b, 0, v, rows(n, row));
    lemma_rows(b, 4, n, row, 8);
    assert forall|i: int| 0 <= i < n implies be32(b, 4 + 8 * i) == (#[trigger] x[i]).rate && be32(b, 8 + 8 * i)
        == x[i].initial_delay by {
        assert(at(b, 4 + 8 * i, row(i)));
        lemma_two(b, 4 + 8 * i, x[i].rate, x[i].initial_delay);
    }
    assert(pdin_of(b)->Ok_0 =~= x);
}

/// A producer reference time gives a track, a wall clock time and the media time, in 32 or in 64 bits by its
/// version.
pub proof fn law_prft_layout(b: Seq<u8>, v: Seq<u8>, x: PrftRecord)
    requires
        v.len() == 4,
        x.version == v[0],
        v[0] == 0 ==> x.media_time <= u32::MAX,
        at(b, 0, v + enc32(x.reference_track_id) + enc64(x.ntp_timestamp) + time(v[0], x.media_time)),
    ensures
        prft_of(b) == Ok::<Option<PrftRecord>, Error>(Some(x)),
{
    let h = v + enc32(x.reference_track_id);
    lemma_peel(b, 0, h + enc64(x.ntp_timestamp), time(v[0], x.media_time));
    lemma_peel(b, 0, h, enc64(x.ntp_timestamp));
    lemma_peel(b, 0, v, enc32(x.reference_track_id));
    assert(b.subrange(0, 4)[0] == b[0]);
    lemma_at32(b, 4, x.reference_track_id);
    lemma_at64(b, 8, x.ntp_timestamp);
    if v[0] == 0 {
        lemma_at32(b, 16, x.media_time as u32);
    } else {
        lemma_at64(b, 16, x.media_time);
    }
}

/// The last `w` bytes of a number.
pub open spec fn enc_var(x: u32, w: int) -> Seq<u8> {
    enc32(x).skip(4 - w)
}

/// Whether a number fits in `w` bytes, of which there are one to four.
pub open spec fn fits_var(x: u32, w: int) -> bool {
    ||| w == 1 && x < 0x100
    ||| w == 2 && x < 0x1_0000
    ||| w == 3 && x < 0x100_0000
    ||| w == 4
}

#[verifier::rlimit(40)]
proof fn lemma_var(b: Seq<u8>, q: int, x: u32, w: int)
    requires
        fits_var(x, w),
        at(b, q, enc_var(x, w)),
    ensures
        enc_var(x, w).len() == w,
        tfra_number(b, q, w) == x,
{
    let s = b.subrange(q, q + w);
    let e = enc32(x);
    assert(enc_var(x, w).len() == w);
    assert(s == enc_var(x, w));
    assert forall|i: int| 0 <= i < w implies #[trigger] s[i] == e[4 - w + i] by {}
    reveal_with_fuel(be_var, 5);
    assert(s[w - 1] == e[3]);
    if w >= 2 {
        assert(s[w - 2] == e[2]);
    }
    if w >= 3 {
        assert(s[w - 3] == e[1]);
    }
    if w >= 4 {
        assert(s[w - 4] == e[0]);
    }
}

/// The bytes of a random access point: its time and the place of its fragment, in 32 or in 64 bits by the version,
/// and three numbers in as many bytes as the widths say.
pub open spec fn point_layout(version: u8, x: TfraEntry, w: (int, int, int)) -> Seq<u8> {
    (if version == 1 { enc64(x.time) + enc64(x.moof_offset) } else { two(x.time as u32, x.moof_offset as u32) }) + enc_var(
        x.traf_number,
        w.0,
    ) + enc_var(x.trun_number, w.1) + enc_var(x.sample_number, w.2)
}

/// Whether a random access point can be written.
pub open spec fn point_fits(version: u8, x: TfraEntry, w: (int, int, int)) -> bool {
    &&& version != 1 ==> x.time <= u32::MAX && x.moof_offset <= u32::MAX
    &&& fits_var(x.traf_number, w.0)
    &&& fits_var(x.trun_number, w.1)
    &&& fits_var(x.sample_number, w.2)
}

proof fn lemma_point(b: Seq<u8>, q: int, x: TfraEntry, w: (int, int, int))
    requires
        w == tfra_widths(b),
        point_fits(b[0], x, w),
        at(b, q, point_layout(b[0], x, w)),
    ensures
        tfra_entry_at(b, q) == x,
        point_layout(b[0], x, w).len() == tfra_row(b),
{
    let h = if b[0] == 1 { enc64(x.time) + enc64(x.moof_offset) } else { two(x.time as u32, x.moof_offset as u32) };
    let e1 = enc_var(x.traf_number, w.0);
    let e2 = enc_var(x.trun_number, w.1);
    let e3 = enc_var(x.sample_number, w.2);
    lemma_peel(b, q, h + e1 + e2, e3);
    lemma_peel(b, q, h + e1, e2);
    lemma_peel(b, q, h, e1);
    let p = q + h.len();
    lemma_var(b, p, x.traf_number, w.0);
    lemma_var(b, p + w.0, x.trun_number, w.1);
    lemma_var(b, p + w.0 + w.1, x.sample_number, w.2);
    if b[0] == 1 {
        lemma_peel(b, q, enc64(x.time), enc64(x.moof_offset));
        lemma_at64(b, q, x.time);
        lemma_at64(b, q + 8, x.moof_offset);
    } else {
        lemma_two(b, q, x.time as u32, x.moof_offset as u32);
    }
}

proof fn lemma_point_len(version: u8, x: TfraEntry, w: (int, int, int))
    requires
        1 <= w.0 <= 4,
        1 <= w.1 <= 4,
        1 <= w.2 <= 4,
    ensures
        point_layout(version, x, w).len() == (if version == 1 { 16int } else { 8int }) + w.0 + w.1 + w.2,
{
}

/// A track fragment random access box gives the track and its random access points; two bits each of its twelfth
/// byte say in how many bytes the three numbers of a point are written.
#[verifier::rlimit(40)]
pub proof fn law_tfra_layout(b: Seq<u8>, v: Seq<u8>, gap: Seq<u8>, w: (int, int, int), x: TfraModel)
    requires
        v.len() == 4,
        gap.len() == 3,
        1 <= w.0 <= 4,
        1 <= w.1 <= 4,
        1 <= w.2 <= 4,
        x.entries.len() <= u32::MAX,
        forall|i: int| 0 <= i < x.entries.len() ==> point_fits(v[0], #[trigger] x.entries[i], w),
        at(
            b,
            0,
            v + enc32(x.track_id) + gap + seq![((w.0 - 1) * 16 + (w.1 - 1) * 4 + (w.2 - 1)) as u8] + enc32(
                x.entries.len() as u32,
            ) + rows(x.entries.len() as int, |i: int| point_layout(v[0], x.entries[i], w)),
        ),
    ensures
        tfra_of(b) == Ok::<Option<TfraModel>, Error>(Some(x)),
{
    let n = x.entries.len() as int;
    let row = |i: int| point_layout(v[0], x.entries[i], w);
    let k = ((w.0 - 1) * 16 + (w.1 - 1) * 4 + (w.2 - 1)) as u8;
    let h1 = v + enc32(x.track_id);
    let h2 = h1 + gap;
    let h3 = h2 + seq![k];
    lemma_peel(b, 0, h3 + enc32(n as u32), rows(n, row));
    lemma_peel(b, 0, h3, enc32(n as u32));
    lemma_peel(b, 0, h2, seq![k]);
    lemma_peel(b, 0, h1, gap);
    lemma_peel(b, 0, v, enc32(x.track_id));
    assert(b.subrange(0, 4)[0] == b[0]);
    assert(b.subrange(11, 12)[0] == b[11]);
    assert(b[11] == k);
    assert(tfra_widths(b) == w);
    lemma_at32(b, 4, x.track_id);
    lemma_at32(b, 12, n as u32);
    let size = (if v[0] == 1 { 16int } else { 8int }) + w.0 + w.1 + w.2;
    assert(size == tfra_row(b));
    assert forall|i: int| 0 <= i < n implies (#[trigger] row(i)).len() == size by {
        lemma_point_len(v[0], x.entries[i], w);
    }
    lemma_rows(b, 16, n, row, size);
    assert forall|i: int| 0 <= i < n implies tfra_entry_at(b, 16 + size * i) == #[trigger] x.entries[i] by {
        assert(at(b, 16 + size * i, row(i)));
        assert(point_fits(v[0], x.entries[i], w));
        lemma_point(b, 16 + size * i, x.entries[i], w);
    }
    assert(tfra_entries(b, n as nat) =~= x.entries);
}

/// The random access boxes among the boxes of a movie fragment random access box are taken over, in order; the others
/// are passed over.
pub proof fn law_mfra_layout(parts: Seq<Part>, x: Seq<TfraModel>, s: Seq<TfraModel>)
    requires
        parts_fit(parts),
        parts.len() == x.len(),
        forall|i: int| 0 <= i < x.len() ==> (#[trigger] parts[i]).0 == name('t', 'f', 'r', 'a') && tfra_of(parts[i].1)
            == Ok::<Option<TfraModel>, Error>(Some(x[i])),
    ensures
        mfra_from(box_list(parts), 0, s) == (s + x, Ok::<(), Error>(())),
{
    let step = |s: Seq<TfraModel>, c: Child| mfra_step(s, c);
    law_walk_in_order(parts, s, step);
    assert(mfra_from(box_list(parts), 0, s) == walk(box_list(parts), 0, s, step));
    lemma_mfra(parts, x, s);
}

proof fn lemma_mfra(parts: Seq<Part>, x: Seq<TfraModel>, s: Seq<TfraModel>)
    requires
        parts.len() == x.len(),
        forall|i: int| 0 <= i < x.len() ==> (#[trigger] parts[i]).0 == name('t', 'f', 'r', 'a') && tfra_of(parts[i].1)
            == Ok::<Option<TfraModel>, Error>(Some(x[i])),
    ensures
        each_part(parts, s, |s: Seq<TfraModel>, c: Child| mfra_step(s, c)) == (s + x, Ok::<(), Error>(())),
    decreases x.len(),
{
    law_codes();
    if x.len() > 0 {
        let rest = parts.drop_first();
        let more = x.drop_first();
        assert(parts[0].0 == name('t', 'f', 'r', 'a'));
        assert forall|i: int| 0 <= i < more.len() implies (#[trigger] rest[i]).0 == name('t', 'f', 'r', 'a') && tfra_of(
            rest[i].1,
        ) == Ok::<Option<TfraModel>, Error>(Some(more[i])) by {
            assert(rest[i] == parts[i + 1]);
        }
        lemma_mfra(rest, more, s.push(x[0]));
        assert(s.push(x[0]) + more =~= s + x);
    } else {
        assert(s + x =~= s);
    }
}

/// Items that are written one behind the other are read back, where each is read wherever it stands.
pub proof fn lemma_items<T>(
    b: Seq<u8>,
    q: int,
    x: Seq<T>,
    row: spec_fn(int) -> Seq<u8>,
    item: spec_fn(Seq<u8>, int) -> Result<(T, int)>,
    i: int,
)
    requires
        0 <= i <= x.len(),
        at(b, q, rows(x.len() as int, row)),
        forall|p: int, k: int| 0 <= k < x.len() && at(b, p, row(k)) ==> #[trigger] item(b, p) == Ok::<(T, int), Error>(
            (x[k], p + (#[trigger] row(k)).len()),
        ),
    ensures
        items(b, q + rows(i, row).len(), (x.len() - i) as nat, x.take(i), item) == Ok::<(Seq<T>, int), Error>(
            (x, q + rows(x.len() as int, row).len()),
        ),
    decreases x.len() - i,
{
    if i < x.len() {
        lemma_row_stands(b, q, row, i, x.len() as int);
        let p = q + rows(i, row).len();
        assert(at(b, p, row(i)));
        assert(item(b, p) == Ok::<(T, int), Error>((x[i], p + row(i).len())));
        assert(rows(i + 1, row).len() == rows(i, row).len() + row(i).len());
        assert(x.take(i).push(x[i]) =~= x.take(i + 1));
        lemma_items(b, q, x, row, item, i + 1);
    } else {
        assert(x.take(i) =~= x);
    }
}

proof fn lemma_row_stands(b: Seq<u8>, q: int, row: spec_fn(int) -> Seq<u8>, i: int, n: int)
    requires
        0 <= i < n,
        at(b, q, rows(n, row)),
    ensures
        at(b, q + rows(i, row).len(), row(i)),
    decreases n,
{
    lemma_peel(b, q, rows(n - 1, row), row(n - 1));
    if i < n - 1 {
        lemma_row_stands(b, q, row, i, n - 1);
    }
}

/// The bytes of a level assignment: the track, a flag with the kind of assignment, and what that kind has.
pub open spec fn level_layout(x: LevaEntry) -> Seq<u8> {
    enc32(x.track_id) + seq![((if x.padding_flag { 128int } else { 0 }) + x.assignment_type) as u8] + (
    if x.assignment_type == 0 {
        enc32(x.grouping_type)
    } else if x.assignment_type == 1 {
        two(x.grouping_type, x.grouping_type_parameter)
    } else if x.assignment_type == 4 {
        enc32(x.sub_track_id)
    } else {
        Seq::empty()
    })
}

/// Whether a level assignment has only what its kind has.
pub open spec fn level_fits(x: LevaEntry) -> bool {
    &&& x.assignment_type < 128
    &&& x.assignment_type > 1 ==> x.grouping_type == 0
    &&& x.assignment_type != 1 ==> x.grouping_type_parameter == 0
    &&& x.assignment_type != 4 ==> x.sub_track_id == 0
}

proof fn lemma_level(b: Seq<u8>, q: int, x: LevaEntry)
    requires
        level_fits(x),
        at(b, q, level_layout(x)),
    ensures
        leva_entry_at(b, q) == Ok::<(LevaEntry, int), Error>((x, q + level_layout(x).len())),
{
    let k = ((if x.padding_flag { 128int } else { 0 }) + x.assignment_type) as u8;
    let h = enc32(x.track_id) + seq![k];
    let tail = if x.assignment_type == 0 {
        enc32(x.grouping_type)
    } else if x.assignment_type == 1 {
        two(x.grouping_type, x.grouping_type_parameter)
    } else if x.assignment_type == 4 {
        enc32(x.sub_track_id)
    } else {
        Seq::empty()
    };
    assert(level_layout(x) == h + tail);
    lemma_peel(b, q, h, tail);
    lemma_peel(b, q, enc32(x.track_id), seq![k]);
    lemma_at32(b, q, x.track_id);
    assert(b.subrange(q + 4, q + 5)[0] == b[q + 4]);
    assert(b[q + 4] == k);
    if x.assignment_type == 0 {
        lemma_at32(b, q + 5, x.grouping_type);
    } else if x.assignment_type == 1 {
        lemma_two(b, q + 5, x.grouping_type, x.grouping_type_parameter);
    } else if x.assignment_type == 4 {
        lemma_at32(b, q + 5, x.sub_track_id);
    }
}

/// A level assignment box gives its levels, each with what its kind of assignment has.
pub proof fn law_leva_layout(b: Seq<u8>, v: Seq<u8>, x: Seq<LevaEntry>)
    requires
        v.len() == 4,
        x.len() < 256,
        forall|i: int| 0 <= i < x.len() ==> level_fits(#[trigger] x[i]),
        at(b, 0, v + seq![x.len() as u8] + rows(x.len() as int, |i: int| level_layout(x[i]))),
    ensures
        leva_of(b) == Ok::<Seq<LevaEntry>, Error>(x),
{
    let n = x.len() as int;
    let row = |i: int| level_layout(x[i]);
    let item = |b: Seq<u8>, off: int| leva_entry_at(b, off);
    lemma_peel(b, 0, v + seq![n as u8], rows(n, row));
    lemma_peel(b, 0, v, seq![n as u8]);
    assert(b.subrange(4, 5)[0] == b[4]);
    assert forall|p: int, k: int| 0 <= k < n && at(b, p, row(k)) implies #[trigger] item(b, p) == Ok::<
        (LevaEntry, int),
        Error,
    >((x[k], p + (#[trigger] row(k)).len())) by {
        assert(level_fits(x[k]));
        lemma_level(b, p, x[k]);
    }
    lemma_items(b, 5, x, row, item, 0);
    assert(x.take(0) =~= Seq::empty());
    assert(rows(0, row).len() == 0);
    assert(leva_entries(b, 5, x.len(), Seq::empty()) == items(b, 5, x.len(), Seq::empty(), item));
}

/// What a track extension box says of the boxes in it: the code and the length of each.
pub open spec fn extension_children(parts: Seq<Part>) -> Seq<TrepChild> {
    Seq::new(
        parts.len(),
        |i: int| TrepChild { fourcc: code_at(enc32(parts[i].0), 0), payload_len: parts[i].1.len() as usize },
    )
}

proof fn lemma_extension_children(pre: Seq<u8>, parts: Seq<Part>, acc: Seq<TrepChild>)
    requires
        parts_fit(parts),
    ensures
        trep_children(pre + box_list(parts), pre.len() as int, acc) == acc + extension_children(parts),
    decreases parts.len(),
{
    let b = pre + box_list(parts);
    let off = pre.len() as int;
    if parts.len() > 0 {
        lemma_first_part(pre, parts);
        let (code, data) = parts[0];
        let rest = parts.drop_first();
        let x = boxed(code, data);
        let n = (8 + data.len()) as u32;
        assert(b =~= pre + x + box_list(rest));
        assert(b.subrange(off, off + x.len()) =~= x);
        lemma_peel(b, off, enc32(n) + enc32(code), data);
        lemma_peel(b, off, enc32(n), enc32(code));
        lemma_at32(b, off, n);
        let w = b.subrange(off + 4, off + 8);
        assert(w[0] == b[off + 4] && w[1] == b[off + 5] && w[2] == b[off + 6] && w[3] == b[off + 7]);
        assert(code_at(b, off + 4) =~= code_at(enc32(code), 0));
        let c = TrepChild { fourcc: code_at(enc32(code), 0), payload_len: data.len() as usize };
        lemma_extension_children(pre + x, rest, acc.push(c));
        assert(acc.push(c) + extension_children(rest) =~= acc + extension_children(parts));
    } else {
        assert(b =~= pre);
        assert(acc + extension_children(parts) =~= acc);
    }
}

/// A track extension box gives the number of its track, and of each box in it the code and the length.
pub proof fn law_trep_layout(v: Seq<u8>, id: u32, parts: Seq<Part>)
    requires
        v.len() == 4,
        parts_fit(parts),
    ensures
        trep_of(v + enc32(id) + box_list(parts)) == Ok::<TrepModel, Error>(
            TrepModel { track_id: id, children: extension_children(parts) },
        ),
{
    let h = v + enc32(id);
    let b = h + box_list(parts);
    lemma_whole(b);
    lemma_peel(b, 0, h, box_list(parts));
    lemma_peel(b, 0, v, enc32(id));
    lemma_at32(b, 4, id);
    lemma_extension_children(h, parts, Seq::empty());
    assert(Seq::<TrepChild>::empty() + extension_children(parts) =~= extension_children(parts));
}

}
