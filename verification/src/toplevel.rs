//! The boxes at the top of a file.
use vstd::prelude::*;
use crate::boxes::{header_at, lemma_views_push, opt_view, read_header, views, BoxHeader, Outcome};
use crate::bytes::copy_bytes;
use crate::error::{seen, Error, Result};
use crate::fragment::{MoofModel, MoofRecord};
use crate::index::{
    mfra_from, parse_mfra, parse_pdin, parse_prft, parse_sidx, parse_ssix, pdin_of, prft_of, sidx_of,
    ssix_of, PdinEntry, PdinRecord, PrftRecord, SidxModel, SidxRecord, SsixRange, SsixRecord, TfraModel,
    TfraRecord,
};
use crate::kinds::{FTYP, MFRA, MOOF, MOOV, PDIN, PRFT, SIDX, SSIX};
use crate::numbers::{wrap_u64, wrapped_add_u64};

verus! {

/// What the boxes at the top of a file have said so far.
pub struct TopLevel {
    pub saw_ftyp: bool,
    /// The payload of the last movie box.
    pub moov: Option<Vec<u8>>,
    pub moofs: Vec<MoofRecord>,
    pub sidxes: Vec<SidxRecord>,
    pub ssixes: Vec<SsixRecord>,
    pub tfras: Vec<TfraRecord>,
    pub prfts: Vec<PrftRecord>,
    pub pdin: Option<PdinRecord>,
}

/// The model of `TopLevel`.
pub ghost struct TopModel {
    pub saw_ftyp: bool,
    pub moov: Option<Seq<u8>>,
    pub moofs: Seq<MoofModel>,
    pub sidxes: Seq<SidxModel>,
    pub ssixes: Seq<Seq<Seq<SsixRange>>>,
    pub tfras: Seq<TfraModel>,
    pub prfts: Seq<PrftRecord>,
    pub pdin: Option<Seq<PdinEntry>>,
}

impl View for TopLevel {
    type V = TopModel;

    open spec fn view(&self) -> TopModel {
        TopModel {
            saw_ftyp: self.saw_ftyp,
            moov: opt_view(self.moov),
            moofs: views(self.moofs@),
            sidxes: views(self.sidxes@),
            ssixes: views(self.ssixes@),
            tfras: views(self.tfras@),
            prfts: self.prfts@,
            pdin: opt_view(self.pdin),
        }
    }
}

impl TopModel {
    /// Nothing said yet.
    pub open spec fn blank() -> TopModel {
        TopModel {
            saw_ftyp: false,
            moov: None,
            moofs: Seq::empty(),
            sidxes: Seq::empty(),
            ssixes: Seq::empty(),
            tfras: Seq::empty(),
            prfts: Seq::empty(),
            pdin: None,
        }
    }
}

/// Whether the payload of a box is read.
pub open spec fn wants_body(kind: u32) -> bool {
    kind == PDIN || kind == MOOV || kind == SIDX || kind == SSIX || kind == MOOF || kind == MFRA || kind == PRFT
}

/// What the header of a box says: the state with it, and whether the payload is to be read rather
/// than skipped. A segment index and a fragment must have a size.
pub open spec fn top_header(m: TopModel, h: BoxHeader) -> (TopModel, Result<bool>) {
    if h.kind == FTYP {
        (TopModel { saw_ftyp: true, ..m }, Ok(false))
    } else if h.kind == SIDX && h.total_size is None {
        (m, Err(Error::invalid("MP4: open-ended sidx")))
    } else if h.kind == MOOF && h.total_size is None {
        (m, Err(Error::invalid("MP4: open-ended moof")))
    } else {
        (m, Ok(wants_body(h.kind)))
    }
}

/// What the payload of a box that starts at `start` in the file says. Of progressive download
/// information the first counts, of movies the last; a malformed subsegment index is left out.
#[verifier::opaque]
pub open spec fn top_body(m: TopModel, h: BoxHeader, start: u64, d: Seq<u8>) -> Outcome<TopModel> {
    if h.kind == PDIN {
        if m.pdin is Some {
            (m, Ok(()))
        } else {
            match pdin_of(d) {
                Err(e) => (m, Err(e)),
                Ok(p) => (TopModel { pdin: Some(p), ..m }, Ok(())),
            }
        }
    } else if h.kind == MOOV {
        (TopModel { moov: Some(d), ..m }, Ok(()))
    } else if h.kind == SIDX {
        match sidx_of(d, wrap_u64(start + d.len())) {
            Err(e) => (m, Err(e)),
            Ok(s) => (TopModel { sidxes: m.sidxes.push(s), ..m }, Ok(())),
        }
    } else if h.kind == SSIX {
        match ssix_of(d) {
            Err(_) => (m, Ok(())),
            Ok(s) => (TopModel { ssixes: m.ssixes.push(s), ..m }, Ok(())),
        }
    } else if h.kind == MOOF {
        (
            TopModel { moofs: m.moofs.push(MoofModel { moof_start: (start - h.header_len) as u64, body: d }), ..m },
            Ok(()),
        )
    } else if h.kind == MFRA {
        let (tfras, r) = mfra_from(d, 0, m.tfras);
        (TopModel { tfras, ..m }, r)
    } else if h.kind == PRFT {
        match prft_of(d) {
            Err(e) => (m, Err(e)),
            Ok(Some(p)) => (TopModel { prfts: m.prfts.push(p), ..m }, Ok(())),
            Ok(None) => (m, Ok(())),
        }
    } else {
        (m, Ok(()))
    }
}

impl TopLevel {
    /// Nothing said yet.
    pub fn new() -> (t: TopLevel)
        ensures
            t@ == TopModel::blank(),
    {
        let t = TopLevel {
            saw_ftyp: false,
            moov: None,
            moofs: Vec::new(),
            sidxes: Vec::new(),
            ssixes: Vec::new(),
            tfras: Vec::new(),
            prfts: Vec::new(),
            pdin: None,
        };
        proof {
            assert(t@.moofs =~= Seq::empty());
            assert(t@.sidxes =~= Seq::empty());
            assert(t@.ssixes =~= Seq::empty());
            assert(t@.tfras =~= Seq::empty());
            assert(t@.prfts =~= Seq::empty());
        }
        t
    }

    /// Takes a header, and says whether the payload is to be read rather than skipped.
    pub fn on_header(&mut self, h: &BoxHeader) -> (r: Result<bool>)
        ensures
            (final(self)@, r) == top_header(old(self)@, *h),
    {
        if h.kind == FTYP {
            self.saw_ftyp = true;
            return Ok(false);
        }
        if h.kind == SIDX && h.total_size.is_none() {
            return Err(Error::invalid("MP4: open-ended sidx"));
        }
        if h.kind == MOOF && h.total_size.is_none() {
            return Err(Error::invalid("MP4: open-ended moof"));
        }
        Ok(
            h.kind == PDIN || h.kind == MOOV || h.kind == SIDX || h.kind == SSIX || h.kind == MOOF || h.kind == MFRA
                || h.kind == PRFT,
        )
    }

    /// Takes the payload of a box, which starts at `start` in the file.
    pub fn on_body(&mut self, h: &BoxHeader, start: u64, body: &[u8]) -> (r: Result<()>)
        requires
            h.header_len <= start,
        ensures
            (final(self)@, r) == top_body(old(self)@, *h, start, body@),
    {
        proof { reveal(top_body); }
        if h.kind == PDIN {
            if self.pdin.is_none() {
                self.pdin = Some(parse_pdin(body)?);
            }
        } else if h.kind == MOOV {
            self.moov = Some(copy_bytes(body));
        } else if h.kind == SIDX {
            let end: u64 = wrapped_add_u64(start, body.len() as u64);
            if let Some(s) = parse_sidx(body, end)? {
                proof { lemma_views_push(self.sidxes@, s); }
                self.sidxes.push(s);
            }
        } else if h.kind == SSIX {
            if let Ok(s) = parse_ssix(body) {
                proof { lemma_views_push(self.ssixes@, s); }
                self.ssixes.push(s);
            }
        } else if h.kind == MOOF {
            let row = MoofRecord { moof_start: start - h.header_len, body: copy_bytes(body) };
            proof { lemma_views_push(self.moofs@, row); }
            self.moofs.push(row);
        } else if h.kind == MFRA {
            parse_mfra(body, &mut self.tfras)?;
        } else if h.kind == PRFT {
            if let Some(p) = parse_prft(body)? {
                self.prfts.push(p);
            }
        }
        Ok(())
    }
}

/// Where the box with header `h` and payload at `start` ends, as far as the file goes. A box without a
/// size runs to the end of the file.
pub open spec fn file_end(f: Seq<u8>, start: int, h: BoxHeader) -> int {
    match h.payload() {
        Some(n) => if start + n <= f.len() { start + n } else { f.len() as int },
        None => f.len() as int,
    }
}

/// Whether the file holds all of the payload.
pub open spec fn file_holds(f: Seq<u8>, start: int, h: BoxHeader) -> bool {
    h.payload() matches Some(n) ==> start + n <= f.len()
}

/// What the boxes of a file from byte `pos` on say.
pub open spec fn file_from(f: Seq<u8>, pos: int, m: TopModel) -> Outcome<TopModel>
    decreases f.len() - pos,
{
    if pos >= f.len() {
        (m, Ok(()))
    } else {
        match header_at(f, pos) {
            Err(e) => (m, Err(e)),
            Ok(h) => {
                let start = pos + h.header_len;
                let end = file_end(f, start, h);
                match top_header(m, h) {
                    (m1, Err(e)) => (m1, Err(e)),
                    (m1, Ok(read)) => if end <= pos {
                        (m1, Ok(()))
                    } else if !read {
                        file_from(f, end, m1)
                    } else if !file_holds(f, start, h) {
                        (m1, Err(Error::invalid("MP4: truncated box payload")))
                    } else {
                        match top_body(m1, h, start as u64, f.subrange(start, end)) {
                            (m2, Err(e)) => (m2, Err(e)),
                            (m2, Ok(())) => file_from(f, end, m2),
                        }
                    },
                }
            },
        }
    }
}

/// What the boxes of a file say.
pub open spec fn file_of(f: Seq<u8>) -> Result<TopModel> {
    match file_from(f, 0, TopModel::blank()) {
        (m, Ok(())) => Ok(m),
        (_, Err(e)) => Err(e),
    }
}

/// Reads the boxes at the top of a file that is held in memory.
pub fn read_file(f: &[u8]) -> (r: Result<TopLevel>)
    ensures
        seen(r) == file_of(f@),
{
    let mut top = TopLevel::new();
    let len: usize = f.len();
    let mut pos: usize = 0;
    while pos < len
        invariant
            len == f@.len(),
            pos <= len,
            file_from(f@, 0, TopModel::blank()) == file_from(f@, pos as int, top@),
        decreases len - pos,
    {
        let h = read_header(f, pos)?;
        let start: usize = pos + h.header_len as usize;
        let left: u64 = (len - start) as u64;
        let mut whole = true;
        let mut end: usize = len;
        if let Some(n) = h.payload_size() {
            if n <= left {
                end = start + n as usize;
            } else {
                whole = false;
            }
        }
        if top.on_header(&h)? {
            if !whole {
                return Err(Error::invalid("MP4: truncated box payload"));
            }
            top.on_body(&h, start as u64, &f[start..end])?;
        }
        pos = end;
    }
    Ok(top)
}

}
