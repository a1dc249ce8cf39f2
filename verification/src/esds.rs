//! Elementary stream descriptors.
use vstd::prelude::*;
use crate::boxes::opt_view;
use crate::bytes::copy_bytes;

verus! {

/// What an elementary stream descriptor says of the decoder.
#[derive(Clone, Debug, PartialEq, Eq)]
pub struct EsdsInfo {
    /// The decoder specific information, empty where there is none.
    pub dsi: Vec<u8>,
    /// The object type.
    pub oti: Option<u8>,
}

/// The model of `EsdsInfo`.
pub ghost struct EsdsModel {
    pub dsi: Seq<u8>,
    pub oti: Option<u8>,
}

impl View for EsdsInfo {
    type V = EsdsModel;

    open spec fn view(&self) -> EsdsModel {
        EsdsModel { dsi: self.dsi@, oti: self.oti }
    }
}

/// A length of up to `k` bytes at byte `p`, seven bits in each and the last one marked by
/// a clear top bit, with `acc` before it; and where it ends.
pub open spec fn ber(b: Seq<u8>, p: int, k: nat, acc: nat) -> Option<(nat, int)>
    decreases k,
{
    if k == 0 || p >= b.len() {
        None
    } else if b[p] < 128 {
        Some((acc * 128 + b[p] as nat, p + 1))
    } else {
        ber(b, p + 1, (k - 1) as nat, acc * 128 + (b[p] - 128) as nat)
    }
}

/// The header of the descriptor at byte `off`: tag, length, and where the content starts.
pub open spec fn descr_at(b: Seq<u8>, off: int) -> Option<(u8, nat, int)> {
    if off >= b.len() {
        None
    } else {
        match ber(b, off + 1, 4, 0) {
            None => None,
            Some((len, start)) => Some((b[off], len, start)),
        }
    }
}

/// Reads the header of the descriptor at byte `off`: tag, length, and the size of the header.
pub fn read_descr(buf: &[u8], off: usize) -> (r: Option<(u8, usize, usize)>)
    ensures
        match r {
            None => descr_at(buf@, off as int) is None,
            Some((tag, len, consumed)) => {
                &&& descr_at(buf@, off as int) == Some((tag, len as nat, off + consumed))
                &&& 2 <= consumed <= 5
                &&& off + consumed <= buf@.len()
                &&& len < 0x1000_0000
            },
        },
{
    let n: usize = buf.len();
    if off >= n {
        return None;
    }
    let tag: u8 = buf[off];
    let mut len: usize = 0;
    let mut consumed: usize = 1;
    while consumed < 5
        invariant
            n == buf@.len(),
            off < n,
            1 <= consumed <= 5,
            off + consumed <= n,
            consumed == 1 ==> len == 0,
            consumed == 2 ==> len < 0x80,
            consumed == 3 ==> len < 0x4000,
            consumed == 4 ==> len < 0x20_0000,
            consumed == 5 ==> len < 0x1000_0000,
            tag == buf@[off as int],
            ber(buf@, off + 1, 4, 0) == ber(buf@, off + consumed, (5 - consumed) as nat, len as nat),
        decreases 5 - consumed,
    {
        if consumed >= n - off {
            return None;
        }
        let b: u8 = buf[off + consumed];
        consumed += 1;
        if b < 128 {
            len = len * 128 + b as usize;
            return Some((tag, len, consumed));
        }
        len = len * 128 + (b - 128) as usize;
    }
    None
}

/// The decoder specific information among the descriptors in `b[pos..end]`, if there is
/// any before the first that is malformed.
pub open spec fn dsi_in(b: Seq<u8>, pos: int, end: int) -> Option<Seq<u8>>
    decreases end - pos,
{
    if pos >= end {
        None
    } else {
        match descr_at(b, pos) {
            None => None,
            Some((tag, len, start)) => if start + len > end || start + len <= pos {
                None
            } else if tag == 5 {
                Some(b.subrange(start, start + len))
            } else {
                dsi_in(b, start + len, end)
            },
        }
    }
}

/// What a decoder configuration in `b[start..end]` adds to `info`.
pub open spec fn with_config(b: Seq<u8>, start: int, end: int, info: EsdsModel) -> EsdsModel {
    EsdsModel {
        dsi: match dsi_in(b, start + 13, end) {
            Some(dsi) => dsi,
            None => info.dsi,
        },
        oti: Some(b[start]),
    }
}

/// What the descriptors in `b[pos..end]` add to `info`. One that is malformed, or a decoder
/// configuration that is too short, ends the list.
pub open spec fn es_parts(b: Seq<u8>, pos: int, end: int, info: EsdsModel) -> EsdsModel
    decreases end - pos,
{
    if pos >= end {
        info
    } else {
        match descr_at(b, pos) {
            None => info,
            Some((tag, len, start)) => if start + len > end || start + len <= pos || (tag == 4 && len < 13) {
                info
            } else if tag == 4 {
                es_parts(b, start + len, end, with_config(b, start, start + len, info))
            } else {
                es_parts(b, start + len, end, info)
            },
        }
    }
}

/// Where the parts of an elementary stream descriptor start whose content is
/// `b[start..end]`: behind an identifier, flags and what the flags announce.
pub open spec fn es_parts_pos(b: Seq<u8>, start: int, end: int) -> Option<int> {
    let flags = b[start + 2];
    let p1 = start + 3 + (if flags / 128 == 1 { 2int } else { 0 });
    let tail = if flags / 32 % 2 == 1 { 2int } else { 0 };
    if flags / 64 % 2 == 1 {
        if p1 >= end { None } else { Some(p1 + 1 + b[p1] + tail) }
    } else {
        Some(p1 + tail)
    }
}

/// The content of an elementary stream descriptor; `None` only where the descriptor itself is malformed,
/// not where one in it is.
pub open spec fn esds_of(b: Seq<u8>) -> Option<EsdsModel> {
    match descr_at(b, 0) {
        None => None,
        Some((tag, len, start)) => if tag != 3 || start + len > b.len() || len < 3 {
            None
        } else {
            match es_parts_pos(b, start, start + len) {
                None => None,
                Some(p) => Some(es_parts(b, p, start + len, EsdsModel { dsi: Seq::empty(), oti: None })),
            }
        },
    }
}

/// The sum of two numbers, at most the largest index.
fn ahead(a: usize, k: usize) -> (r: usize)
    ensures
        a + k <= usize::MAX ==> r == a + k,
        a + k > usize::MAX ==> r == usize::MAX,
{
    if k > usize::MAX - a { usize::MAX } else { a + k }
}

/// Finds the decoder specific information among the descriptors in `buf[pos..end]`.
fn find_dsi(buf: &[u8], pos: usize, end: usize) -> (r: Option<Vec<u8>>)
    requires
        pos <= end <= buf@.len(),
    ensures
        opt_view(r) == dsi_in(buf@, pos as int, end as int),
{
    let n: usize = buf.len();
    let mut cur: usize = pos;
    while cur < end
        invariant
            n == buf@.len(),
            pos <= cur <= end <= n,
            dsi_in(buf@, pos as int, end as int) == dsi_in(buf@, cur as int, end as int),
        decreases end - cur,
    {
        match read_descr(buf, cur) {
            None => return None,
            Some((tag, len, consumed)) => {
                let start: usize = cur + consumed;
                if start > end || len > end - start {
                    return None;
                }
                if tag == 5 {
                    return Some(copy_bytes(&buf[start..start + len]));
                }
                cur = start + len;
            },
        }
    }
    None
}

/// Parses an elementary stream descriptor.
pub fn parse_esds(buf: &[u8]) -> (r: Option<EsdsInfo>)
    ensures
        opt_view(r) == esds_of(buf@),
{
    let (tag, len, consumed) = match read_descr(buf, 0) {
        Some(h) => h,
        None => return None,
    };
    if tag != 3 {
        return None;
    }
    if len > buf.len() - consumed || len < 3 {
        return None;
    }
    let end: usize = consumed + len;
    let flags: u8 = buf[consumed + 2];
    let mut cur: usize = consumed + 3;
    if flags / 128 == 1 {
        cur = ahead(cur, 2);
    }
    if flags / 64 % 2 == 1 {
        if cur >= end {
            return None;
        }
        let url: usize = buf[cur] as usize;
        cur = ahead(cur, 1 + url);
    }
    if flags / 32 % 2 == 1 {
        cur = ahead(cur, 2);
    }
    let mut info = EsdsInfo { dsi: Vec::new(), oti: None };
    proof {
        assert(info@.dsi =~= Seq::<u8>::empty());
    }
    let ghost p = es_parts_pos(buf@, consumed as int, end as int);
    assert(p is Some && (p->0 == cur || (p->0 >= end && cur >= end)));
    let n: usize = buf.len();
    while cur < end
        invariant
            n == buf@.len(),
            end <= n,
            esds_of(buf@) == Some(es_parts(buf@, cur as int, end as int, info@)),
        decreases end - cur,
    {
        match read_descr(buf, cur) {
            None => return Some(info),
            Some((sub_tag, sub_len, sub_hdr)) => {
                let start: usize = cur + sub_hdr;
                if start > end || sub_len > end - start || (sub_tag == 4 && sub_len < 13) {
                    return Some(info);
                }
                let sub_end: usize = start + sub_len;
                if sub_tag == 4 {
                    if let Some(d) = find_dsi(buf, start + 13, sub_end) {
                        info.dsi = d;
                    }
                    info.oti = Some(buf[start]);
                }
                cur = sub_end;
            },
        }
    }
    Some(info)
}

/// The decoder specific information of an elementary stream descriptor, where it is not empty.
pub fn parse_esds_dsi(buf: &[u8]) -> (r: Option<Vec<u8>>)
    ensures
        opt_view(r) == (match esds_of(buf@) {
            Some(m) => if m.dsi.len() == 0 { None } else { Some(m.dsi) },
            None => None,
        }),
{
    match parse_esds(buf) {
        None => None,
        Some(info) => if info.dsi.len() == 0 { None } else { Some(info.dsi) },
    }
}

}
