//! What a file tells of its boxes in its metadata.
use vstd::prelude::*;
use crate::boxes::{opt_view, views};
use crate::cenc::{PsshBox, PsshModel};
use crate::fragment::{MoofPsshModel, MoofPsshRecord, SaiRecord, SaiRecordModel, SencRecord, SencRecordModel};
use crate::index::{
    LevaEntry, LevaRecord, PdinEntry, PdinRecord, PrftRecord, SsixRange, SsixRecord, TrepChild,
    TrepModel, TrepRecord,
};
use crate::meta::{push_meta, Metadata};
use crate::numbers::{lemma_wrap_u64_add, wrap_u64, wrapped_add_u64};
use crate::text::{
    dec, dec_string, from_utf8_lossy, hex8, hex_from, numbered, numbered_string, push_dec, push_hex,
    push_hex8, text_from, utf8_lossy,
};

verus! {

/// Metadata with a row for each of the rows from the `i`th on.
pub open spec fn each_meta<T>(m: Metadata, rows: Seq<T>, i: int, name: Seq<char>, f: spec_fn(T) -> Seq<char>) -> Metadata
    decreases rows.len() - i,
{
    if i >= rows.len() {
        m
    } else {
        each_meta(m.push((numbered(name, i), f(rows[i]))), rows, i + 1, name, f)
    }
}

/// The metadata on the duration with all fragments.
pub open spec fn mehd_meta(m: Metadata, duration: Option<u64>) -> Metadata {
    match duration {
        Some(d) => m.push(("mehd_fragment_duration"@, dec(d as nat))),
        None => m,
    }
}

/// Appends the duration with all fragments.
pub fn push_mehd(m: &mut Vec<(String, String)>, duration: Option<u64>)
    ensures
        views(final(m)@) == mehd_meta(views(old(m)@), duration),
{
    if let Some(d) = duration {
        push_meta(m, "mehd_fragment_duration", dec_string(d));
    }
}

/// A download rate and the delay that goes with it.
pub open spec fn pdin_text(e: PdinEntry) -> Seq<char> {
    Seq::empty() + dec(e.rate as nat) + " "@ + dec(e.initial_delay as nat)
}

/// The metadata on download rates from the `i`th on.
pub open spec fn pdin_rows_meta(m: Metadata, rows: Seq<PdinEntry>, i: int) -> Metadata {
    each_meta(m, rows, i, "pdin_"@, |e: PdinEntry| pdin_text(e))
}

/// The metadata on progressive download.
pub open spec fn pdin_meta(m: Metadata, pdin: Option<Seq<PdinEntry>>) -> Metadata {
    match pdin {
        Some(rows) => pdin_rows_meta(m.push(("pdin_count"@, dec(rows.len()))), rows, 0),
        None => m,
    }
}

/// Appends what sums up progressive download information.
pub fn push_pdin(m: &mut Vec<(String, String)>, pdin: &Option<PdinRecord>)
    ensures
        views(final(m)@) == pdin_meta(views(old(m)@), opt_view(*pdin)),
{
    if let Some(p) = pdin {
        push_meta(m, "pdin_count", dec_string(p.entries.len() as u64));
        let ghost all = pdin_meta(views(old(m)@), opt_view(*pdin));
        let mut i: usize = 0;
        while i < p.entries.len()
            invariant
                i <= p.entries@.len(),
                all == pdin_rows_meta(views(m@), p.entries@, i as int),
            decreases p.entries@.len() - i,
        {
            let e = p.entries[i];
            let mut v = String::new();
            proof { assert(v@ =~= Seq::<char>::empty()); }
            push_dec(&mut v, e.rate as u64);
            v.append(" ");
            push_dec(&mut v, e.initial_delay as u64);
            push_meta(m, numbered_string("pdin_", i).as_str(), v);
            i += 1;
        }
    }
}

/// How a level is assigned; what the type of assignment does not use is left out.
pub open spec fn leva_text(e: LevaEntry) -> Seq<char> {
    let a = Seq::empty() + dec(e.track_id as nat) + " pad="@ + dec(if e.padding_flag { 1 } else { 0 }) + " at="@ + dec(
        e.assignment_type as nat,
    );
    if e.assignment_type == 0 {
        a + " grouping_type="@ + dec(e.grouping_type as nat)
    } else if e.assignment_type == 1 {
        a + " grouping_type="@ + dec(e.grouping_type as nat) + " grouping_type_parameter="@ + dec(
            e.grouping_type_parameter as nat,
        )
    } else if e.assignment_type == 4 {
        a + " sub_track_id="@ + dec(e.sub_track_id as nat)
    } else {
        a
    }
}

fn leva_string(e: &LevaEntry) -> (v: String)
    ensures
        v@ == leva_text(*e),
{
    let mut v = String::new();
    proof { assert(v@ =~= Seq::<char>::empty()); }
    push_dec(&mut v, e.track_id as u64);
    v.append(" pad=");
    push_dec(&mut v, if e.padding_flag { 1 } else { 0 });
    v.append(" at=");
    push_dec(&mut v, e.assignment_type as u64);
    if e.assignment_type == 0 {
        v.append(" grouping_type=");
        push_dec(&mut v, e.grouping_type as u64);
    } else if e.assignment_type == 1 {
        v.append(" grouping_type=");
        push_dec(&mut v, e.grouping_type as u64);
        v.append(" grouping_type_parameter=");
        push_dec(&mut v, e.grouping_type_parameter as u64);
    } else if e.assignment_type == 4 {
        v.append(" sub_track_id=");
        push_dec(&mut v, e.sub_track_id as u64);
    }
    v
}

/// The metadata on levels from the `i`th on.
pub open spec fn leva_rows_meta(m: Metadata, rows: Seq<LevaEntry>, i: int) -> Metadata {
    each_meta(m, rows, i, "leva_"@, |e: LevaEntry| leva_text(e))
}

/// The metadata on level assignment.
pub open spec fn leva_meta(m: Metadata, leva: Option<Seq<LevaEntry>>) -> Metadata {
    match leva {
        Some(rows) => leva_rows_meta(m.push(("leva_count"@, dec(rows.len()))), rows, 0),
        None => m,
    }
}

/// Appends what sums up the level assignment.
pub fn push_leva(m: &mut Vec<(String, String)>, leva: &Option<LevaRecord>)
    ensures
        views(final(m)@) == leva_meta(views(old(m)@), opt_view(*leva)),
{
    if let Some(l) = leva {
        push_meta(m, "leva_count", dec_string(l.entries.len() as u64));
        let ghost all = leva_meta(views(old(m)@), opt_view(*leva));
        let mut i: usize = 0;
        while i < l.entries.len()
            invariant
                i <= l.entries@.len(),
                all == leva_rows_meta(views(m@), l.entries@, i as int),
            decreases l.entries@.len() - i,
        {
            push_meta(m, numbered_string("leva_", i).as_str(), leva_string(&l.entries[i]));
            i += 1;
        }
    }
}

/// The codes of children from the `i`th on, behind `acc`.
pub open spec fn trep_codes(acc: Seq<char>, rows: Seq<TrepChild>, i: int) -> Seq<char> {
    text_from(acc, rows, i, |acc: Seq<char>, c: TrepChild| acc + " "@ + utf8_lossy(c.fourcc@))
}

/// Track extension properties: the track, and how many children of which kind.
pub open spec fn trep_text(t: TrepModel) -> Seq<char> {
    trep_codes(Seq::empty() + dec(t.track_id as nat) + " children="@ + dec(t.children.len()), t.children, 0)
}

fn trep_string(t: &TrepRecord) -> (v: String)
    ensures
        v@ == trep_text(t@),
{
    let mut v = String::new();
    proof { assert(v@ =~= Seq::<char>::empty()); }
    push_dec(&mut v, t.track_id as u64);
    v.append(" children=");
    push_dec(&mut v, t.children.len() as u64);
    let ghost start = v@;
    let mut i: usize = 0;
    while i < t.children.len()
        invariant
            i <= t.children@.len(),
            trep_codes(start, t.children@, 0) == trep_codes(v@, t.children@, i as int),
        decreases t.children@.len() - i,
    {
        v.append(" ");
        let code = from_utf8_lossy(t.children[i].fourcc.as_slice());
        v.append(code.as_str());
        i += 1;
    }
    v
}

/// The metadata on track extension properties from the `i`th on.
pub open spec fn trep_meta(m: Metadata, rows: Seq<TrepModel>, i: int) -> Metadata {
    each_meta(m, rows, i, "trep_"@, |t: TrepModel| trep_text(t))
}

/// Appends what sums up track extension properties.
pub fn push_treps(m: &mut Vec<(String, String)>, treps: &Vec<TrepRecord>)
    ensures
        views(final(m)@) == trep_meta(views(old(m)@), views(treps@), 0),
{
    let ghost rows = views(treps@);
    let mut i: usize = 0;
    while i < treps.len()
        invariant
            i <= treps@.len(),
            rows == views(treps@),
            trep_meta(views(old(m)@), rows, 0) == trep_meta(views(m@), rows, i as int),
        decreases treps@.len() - i,
    {
        assert(rows[i as int] == treps@[i as int]@);
        push_meta(m, numbered_string("trep_", i).as_str(), trep_string(&treps[i]));
        i += 1;
    }
}

/// A producer reference time.
pub open spec fn prft_text(p: PrftRecord) -> Seq<char> {
    Seq::empty() + dec(p.reference_track_id as nat) + " "@ + dec(p.ntp_timestamp as nat) + " "@ + dec(
        p.media_time as nat,
    )
}

/// The metadata on producer reference times from the `i`th on.
pub open spec fn prft_meta(m: Metadata, rows: Seq<PrftRecord>, i: int) -> Metadata {
    each_meta(m, rows, i, "prft_"@, |p: PrftRecord| prft_text(p))
}

/// Appends what sums up producer reference times.
pub fn push_prfts(m: &mut Vec<(String, String)>, prfts: &Vec<PrftRecord>)
    ensures
        views(final(m)@) == prft_meta(views(old(m)@), prfts@, 0),
{
    let mut i: usize = 0;
    while i < prfts.len()
        invariant
            i <= prfts@.len(),
            prft_meta(views(old(m)@), prfts@, 0) == prft_meta(views(m@), prfts@, i as int),
        decreases prfts@.len() - i,
    {
        let p = prfts[i];
        let mut v = String::new();
        proof { assert(v@ =~= Seq::<char>::empty()); }
        push_dec(&mut v, p.reference_track_id as u64);
        v.append(" ");
        push_dec(&mut v, p.ntp_timestamp);
        v.append(" ");
        push_dec(&mut v, p.media_time);
        push_meta(m, numbered_string("prft_", i).as_str(), v);
        i += 1;
    }
}

/// How many ranges the first `n` subsegments have.
pub open spec fn range_count(rows: Seq<Seq<SsixRange>>, n: int) -> int
    decreases n,
{
    if n <= 0 { 0 } else { range_count(rows, n - 1) + rows[n - 1].len() }
}

/// A subsegment index: how many subsegments and how many ranges.
pub open spec fn ssix_text(s: Seq<Seq<SsixRange>>) -> Seq<char> {
    Seq::empty() + dec(s.len()) + " "@ + dec(wrap_u64(range_count(s, s.len() as int)) as nat)
}

fn ssix_string(s: &SsixRecord) -> (v: String)
    ensures
        v@ == ssix_text(s@),
{
    let ghost rows = s@;
    let mut total: u64 = 0;
    let mut i: usize = 0;
    while i < s.subsegments.len()
        invariant
            i <= s.subsegments@.len(),
            rows == s@,
            total == wrap_u64(range_count(rows, i as int)),
        decreases s.subsegments@.len() - i,
    {
        let n: usize = s.subsegments[i].ranges.len();
        proof {
            assert(rows[i as int].len() == n);
            lemma_wrap_u64_add(range_count(rows, i as int), n as int);
        }
        total = wrapped_add_u64(total, n as u64);
        i += 1;
    }
    let mut v = String::new();
    proof { assert(v@ =~= Seq::<char>::empty()); }
    push_dec(&mut v, s.subsegments.len() as u64);
    v.append(" ");
    push_dec(&mut v, total);
    v
}

/// The metadata on subsegment indexes from the `i`th on.
pub open spec fn ssix_meta(m: Metadata, rows: Seq<Seq<Seq<SsixRange>>>, i: int) -> Metadata {
    each_meta(m, rows, i, "ssix_"@, |s: Seq<Seq<SsixRange>>| ssix_text(s))
}

/// Appends what sums up subsegment indexes.
pub fn push_ssixes(m: &mut Vec<(String, String)>, ssixes: &Vec<SsixRecord>)
    ensures
        views(final(m)@) == ssix_meta(views(old(m)@), views(ssixes@), 0),
{
    let ghost rows = views(ssixes@);
    let mut i: usize = 0;
    while i < ssixes.len()
        invariant
            i <= ssixes@.len(),
            rows == views(ssixes@),
            ssix_meta(views(old(m)@), rows, 0) == ssix_meta(views(m@), rows, i as int),
        decreases ssixes@.len() - i,
    {
        assert(rows[i as int] == ssixes@[i as int]@);
        push_meta(m, numbered_string("ssix_", i).as_str(), ssix_string(&ssixes[i]));
        i += 1;
    }
}

/// A protection system box: the system, how many keys it names and how much data it has.
pub open spec fn pssh_text(p: PsshModel) -> Seq<char> {
    hex_from(Seq::empty(), p.system_id@, 0) + " "@ + dec(p.kids.len()) + " "@ + dec(p.data.len())
}

/// The metadata on protection systems from the `i`th on.
pub open spec fn pssh_meta(m: Metadata, rows: Seq<PsshModel>, i: int) -> Metadata {
    each_meta(m, rows, i, "pssh_"@, |p: PsshModel| pssh_text(p))
}

/// Appends what sums up protection systems.
pub fn push_psshes(m: &mut Vec<(String, String)>, psshes: &Vec<PsshBox>)
    ensures
        views(final(m)@) == pssh_meta(views(old(m)@), views(psshes@), 0),
{
    let ghost rows = views(psshes@);
    let mut i: usize = 0;
    while i < psshes.len()
        invariant
            i <= psshes@.len(),
            rows == views(psshes@),
            pssh_meta(views(old(m)@), rows, 0) == pssh_meta(views(m@), rows, i as int),
        decreases psshes@.len() - i,
    {
        let p = &psshes[i];
        assert(rows[i as int] == p@);
        let mut v = String::new();
        proof { assert(v@ =~= Seq::<char>::empty()); }
        push_hex(&mut v, p.system_id.as_slice());
        v.append(" ");
        push_dec(&mut v, p.kids.len() as u64);
        v.append(" ");
        push_dec(&mut v, p.data.len() as u64);
        push_meta(m, numbered_string("pssh_", i).as_str(), v);
        i += 1;
    }
}

/// The encryption information of a track fragment.
pub open spec fn senc_text(r: SencRecordModel) -> Seq<char> {
    "track="@ + dec(r.track_idx as nat) + " seq="@ + dec(r.moof_sequence as nat) + " samples="@ + dec(
        r.senc.samples.len(),
    ) + " flags=0x"@ + hex8(r.senc.flags)
}

/// The metadata on encryption information from the `i`th on.
pub open spec fn senc_meta(m: Metadata, rows: Seq<SencRecordModel>, i: int) -> Metadata {
    each_meta(m, rows, i, "senc_"@, |r: SencRecordModel| senc_text(r))
}

/// Appends what sums up encryption information.
pub fn push_sencs(m: &mut Vec<(String, String)>, sencs: &Vec<SencRecord>)
    ensures
        views(final(m)@) == senc_meta(views(old(m)@), views(sencs@), 0),
{
    let ghost rows = views(sencs@);
    let mut i: usize = 0;
    while i < sencs.len()
        invariant
            i <= sencs@.len(),
            rows == views(sencs@),
            senc_meta(views(old(m)@), rows, 0) == senc_meta(views(m@), rows, i as int),
        decreases sencs@.len() - i,
    {
        let r = &sencs[i];
        assert(rows[i as int] == r@);
        let mut v = String::from_str("track=");
        push_dec(&mut v, r.track_idx as u64);
        v.append(" seq=");
        push_dec(&mut v, r.moof_sequence as u64);
        v.append(" samples=");
        push_dec(&mut v, r.senc.samples.len() as u64);
        v.append(" flags=0x");
        push_hex8(&mut v, r.senc.flags);
        push_meta(m, numbered_string("senc_", i).as_str(), v);
        i += 1;
    }
}

/// The auxiliary information of a track fragment.
pub open spec fn sai_text(r: SaiRecordModel) -> Seq<char> {
    "track="@ + dec(r.track_idx as nat) + " seq="@ + dec(r.moof_sequence as nat) + " saiz="@ + dec(r.saiz.len())
        + " saio="@ + dec(r.saio.len())
}

/// The metadata on auxiliary information from the `i`th on.
pub open spec fn sai_meta(m: Metadata, rows: Seq<SaiRecordModel>, i: int) -> Metadata {
    each_meta(m, rows, i, "frag_sai_"@, |r: SaiRecordModel| sai_text(r))
}

/// Appends what sums up auxiliary information.
pub fn push_sais(m: &mut Vec<(String, String)>, sais: &Vec<SaiRecord>)
    ensures
        views(final(m)@) == sai_meta(views(old(m)@), views(sais@), 0),
{
    let ghost rows = views(sais@);
    let mut i: usize = 0;
    while i < sais.len()
        invariant
            i <= sais@.len(),
            rows == views(sais@),
            sai_meta(views(old(m)@), rows, 0) == sai_meta(views(m@), rows, i as int),
        decreases sais@.len() - i,
    {
        let r = &sais[i];
        assert(rows[i as int] == r@);
        let mut v = String::from_str("track=");
        push_dec(&mut v, r.track_idx as u64);
        v.append(" seq=");
        push_dec(&mut v, r.moof_sequence as u64);
        v.append(" saiz=");
        push_dec(&mut v, r.saiz.len() as u64);
        v.append(" saio=");
        push_dec(&mut v, r.saio.len() as u64);
        push_meta(m, numbered_string("frag_sai_", i).as_str(), v);
        i += 1;
    }
}

/// A protection system box of a fragment.
pub open spec fn moof_pssh_text(r: MoofPsshModel) -> Seq<char> {
    hex_from("systemid="@, r.pssh.system_id@, 0) + " seq="@ + dec(r.moof_sequence as nat) + " kids="@ + dec(
        r.pssh.kids.len(),
    ) + " data="@ + dec(r.pssh.data.len())
}

/// The metadata on protection systems of fragments from the `i`th on.
pub open spec fn moof_pssh_meta(m: Metadata, rows: Seq<MoofPsshModel>, i: int) -> Metadata {
    each_meta(m, rows, i, "moof_pssh_"@, |r: MoofPsshModel| moof_pssh_text(r))
}

/// Appends what sums up protection systems of fragments.
pub fn push_moof_psshes(m: &mut Vec<(String, String)>, psshes: &Vec<MoofPsshRecord>)
    ensures
        views(final(m)@) == moof_pssh_meta(views(old(m)@), views(psshes@), 0),
{
    let ghost rows = views(psshes@);
    let mut i: usize = 0;
    while i < psshes.len()
        invariant
            i <= psshes@.len(),
            rows == views(psshes@),
            moof_pssh_meta(views(old(m)@), rows, 0) == moof_pssh_meta(views(m@), rows, i as int),
        decreases psshes@.len() - i,
    {
        let r = &psshes[i];
        assert(rows[i as int] == r@);
        let mut v = String::from_str("systemid=");
        push_hex(&mut v, r.pssh.system_id.as_slice());
        v.append(" seq=");
        push_dec(&mut v, r.moof_sequence as u64);
        v.append(" kids=");
        push_dec(&mut v, r.pssh.kids.len() as u64);
        v.append(" data=");
        push_dec(&mut v, r.pssh.data.len() as u64);
        push_meta(m, numbered_string("moof_pssh_", i).as_str(), v);
        i += 1;
    }
}

}
