//! Common encryption boxes: `tenc`, `pssh` and `senc`.
use vstd::prelude::*;
use crate::boxes::{items, lemma_views_push, views};
use crate::bytes::{be16, be24, be32, copy_bytes, read_u16, read_u24, read_u32};
use crate::error::{seen, Error, Result};

verus! {

/// Default encryption parameters of a track.
#[derive(Clone, Debug, PartialEq, Eq)]
pub struct TencBox {
    pub version: u8,
    pub default_crypt_byte_block: u8,
    pub default_skip_byte_block: u8,
    pub default_is_protected: u8,
    pub default_per_sample_iv_size: u8,
    pub default_kid: [u8; 16],
    /// The initialization vector of all samples, where they carry none of their own.
    pub default_constant_iv: Option<Vec<u8>>,
}

/// The model of `TencBox`.
pub ghost struct TencModel {
    pub version: u8,
    pub default_crypt_byte_block: u8,
    pub default_skip_byte_block: u8,
    pub default_is_protected: u8,
    pub default_per_sample_iv_size: u8,
    pub default_kid: [u8; 16],
    pub default_constant_iv: Option<Seq<u8>>,
}

impl View for TencBox {
    type V = TencModel;

    open spec fn view(&self) -> TencModel {
        TencModel {
            version: self.version,
            default_crypt_byte_block: self.default_crypt_byte_block,
            default_skip_byte_block: self.default_skip_byte_block,
            default_is_protected: self.default_is_protected,
            default_per_sample_iv_size: self.default_per_sample_iv_size,
            default_kid: self.default_kid,
            default_constant_iv: match self.default_constant_iv {
                Some(v) => Some(v@),
                None => None,
            },
        }
    }
}

/// The sixteen bytes at byte `i`.
pub open spec fn key_at(b: Seq<u8>, i: int) -> [u8; 16] {
    [
        b[i], b[i + 1], b[i + 2], b[i + 3], b[i + 4], b[i + 5], b[i + 6], b[i + 7],
        b[i + 8], b[i + 9], b[i + 10], b[i + 11], b[i + 12], b[i + 13], b[i + 14], b[i + 15],
    ]
}

fn read_key(b: &[u8], i: usize) -> (r: [u8; 16])
    requires
        i + 16 <= b@.len(),
    ensures
        r == key_at(b@, i as int),
{
    [
        b[i], b[i + 1], b[i + 2], b[i + 3], b[i + 4], b[i + 5], b[i + 6], b[i + 7],
        b[i + 8], b[i + 9], b[i + 10], b[i + 11], b[i + 12], b[i + 13], b[i + 14], b[i + 15],
    ]
}

/// Whether a `tenc` payload declares a constant initialization vector.
pub open spec fn tenc_has_constant_iv(b: Seq<u8>) -> bool {
    b[6] == 1 && b[7] == 0
}

/// The content of a `tenc` payload.
pub open spec fn tenc_of(b: Seq<u8>) -> Result<TencModel> {
    if b.len() < 24 {
        Err(Error::invalid("MP4: tenc too short"))
    } else if tenc_has_constant_iv(b) && b.len() < 25 {
        Err(Error::invalid("MP4: tenc constant IV truncated"))
    } else if tenc_has_constant_iv(b) && b.len() < 25 + b[24] {
        Err(Error::invalid("MP4: tenc constant IV truncated"))
    } else {
        Ok(
            TencModel {
                version: b[0],
                default_crypt_byte_block: if b[0] == 0 { 0 } else { b[5] / 16 },
                default_skip_byte_block: if b[0] == 0 { 0 } else { b[5] % 16 },
                default_is_protected: b[6],
                default_per_sample_iv_size: b[7],
                default_kid: key_at(b, 8),
                default_constant_iv: if tenc_has_constant_iv(b) {
                    Some(b.subrange(25, 25 + b[24]))
                } else {
                    None
                },
            },
        )
    }
}

/// Parses a `tenc` payload.
pub fn parse_tenc(body: &[u8]) -> (r: Result<TencBox>)
    ensures
        seen(r) == tenc_of(body@),
{
    if body.len() < 24 {
        return Err(Error::invalid("MP4: tenc too short"));
    }
    let constant = body[6] == 1 && body[7] == 0;
    let mut default_constant_iv: Option<Vec<u8>> = None;
    if constant {
        if body.len() < 25 {
            return Err(Error::invalid("MP4: tenc constant IV truncated"));
        }
        let n: usize = body[24] as usize;
        if body.len() - 25 < n {
            return Err(Error::invalid("MP4: tenc constant IV truncated"));
        }
        default_constant_iv = Some(copy_bytes(&body[25..25 + n]));
    }
    Ok(
        TencBox {
            version: body[0],
            default_crypt_byte_block: if body[0] == 0 { 0 } else { body[5] / 16 },
            default_skip_byte_block: if body[0] == 0 { 0 } else { body[5] % 16 },
            default_is_protected: body[6],
            default_per_sample_iv_size: body[7],
            default_kid: read_key(body, 8),
            default_constant_iv,
        },
    )
}

/// Data that a protection system needs.
#[derive(Clone, Debug, PartialEq, Eq)]
pub struct PsshBox {
    pub version: u8,
    pub system_id: [u8; 16],
    pub kids: Vec<[u8; 16]>,
    pub data: Vec<u8>,
}

/// The model of `PsshBox`.
pub ghost struct PsshModel {
    pub version: u8,
    pub system_id: [u8; 16],
    pub kids: Seq<[u8; 16]>,
    pub data: Seq<u8>,
}

impl View for PsshBox {
    type V = PsshModel;

    open spec fn view(&self) -> PsshModel {
        PsshModel { version: self.version, system_id: self.system_id, kids: self.kids@, data: self.data@ }
    }
}

/// Where the data size of a `pssh` payload stands: behind the key identifiers, which
/// version 0 does not have.
pub open spec fn pssh_data_pos(b: Seq<u8>) -> int {
    if b[0] == 0 { 20 } else { 24 + 16 * be32(b, 20) }
}

/// The content of a `pssh` payload.
pub open spec fn pssh_of(b: Seq<u8>) -> Result<PsshModel> {
    if b.len() < 24 {
        Err(Error::invalid("MP4: pssh too short"))
    } else if b.len() < pssh_data_pos(b) + 4 {
        Err(Error::invalid("MP4: pssh key identifiers truncated"))
    } else if b.len() < pssh_data_pos(b) + 4 + be32(b, pssh_data_pos(b)) {
        Err(Error::invalid("MP4: pssh data truncated"))
    } else {
        let p = pssh_data_pos(b);
        Ok(
            PsshModel {
                version: b[0],
                system_id: key_at(b, 4),
                kids: if b[0] == 0 {
                    Seq::empty()
                } else {
                    Seq::new(be32(b, 20) as nat, |i: int| key_at(b, 24 + 16 * i))
                },
                data: b.subrange(p + 4, p + 4 + be32(b, p)),
            },
        )
    }
}

/// Parses a `pssh` payload.
pub fn parse_pssh(body: &[u8]) -> (r: Result<PsshBox>)
    ensures
        seen(r) == pssh_of(body@),
{
    let len: usize = body.len();
    if len < 24 {
        return Err(Error::invalid("MP4: pssh too short"));
    }
    let mut kids: Vec<[u8; 16]> = Vec::new();
    let mut p: usize = 20;
    if body[0] != 0 {
        let count: u32 = read_u32(body, 20);
        if ((len - 24) as u64) < 16 * (count as u64) + 4 {
            return Err(Error::invalid("MP4: pssh key identifiers truncated"));
        }
        let mut i: u32 = 0;
        p = 24;
        while i < count
            invariant
                len == body@.len(),
                i <= count,
                p == 24 + 16 * i,
                24 + 16 * count + 4 <= len,
                kids@ =~= Seq::new(i as nat, |k: int| key_at(body@, 24 + 16 * k)),
            decreases count - i,
        {
            kids.push(read_key(body, p));
            p += 16;
            i += 1;
        }
    }
    let n: u32 = read_u32(body, p);
    if ((len - p - 4) as u64) < n as u64 {
        return Err(Error::invalid("MP4: pssh data truncated"));
    }
    let data = copy_bytes(&body[p + 4..p + 4 + n as usize]);
    let out = PsshBox { version: body[0], system_id: read_key(body, 4), kids, data };
    proof {
        if body@[0] == 0 {
            assert(kids@ =~= Seq::<[u8; 16]>::empty());
        }
    }
    Ok(out)
}

/// The encryption information of one sample: its initialization vector, and the
/// clear and protected byte counts of its subsamples.
#[derive(Clone, Debug, PartialEq, Eq)]
pub struct SencSample {
    pub iv: Vec<u8>,
    pub subsamples: Vec<(u16, u32)>,
}

/// The encryption information of the samples of a track fragment.
#[derive(Clone, Debug, PartialEq, Eq)]
pub struct SencBox {
    pub flags: u32,
    pub samples: Vec<SencSample>,
}

/// The model of `SencSample`.
pub ghost struct SencSampleModel {
    pub iv: Seq<u8>,
    pub subsamples: Seq<(u16, u32)>,
}

/// The model of `SencBox`.
pub ghost struct SencModel {
    pub flags: u32,
    pub samples: Seq<SencSampleModel>,
}

impl View for SencSample {
    type V = SencSampleModel;

    open spec fn view(&self) -> SencSampleModel {
        SencSampleModel { iv: self.iv@, subsamples: self.subsamples@ }
    }
}

impl View for SencBox {
    type V = SencModel;

    open spec fn view(&self) -> SencModel {
        SencModel { flags: self.flags, samples: views(self.samples@) }
    }
}

/// Whether a `senc` payload has a subsample map for each sample.
pub open spec fn senc_has_subsamples(b: Seq<u8>) -> bool {
    b[3] & 2 != 0
}

/// The sample entry of a `senc` payload at byte `off`, and where the next one starts.
pub open spec fn senc_sample_at(b: Seq<u8>, off: int, iv_size: u8) -> Result<(SencSampleModel, int)> {
    let p = off + iv_size;
    if b.len() < p {
        Err(Error::invalid("MP4: senc IV truncated"))
    } else if !senc_has_subsamples(b) {
        Ok((SencSampleModel { iv: b.subrange(off, p), subsamples: Seq::empty() }, p))
    } else if b.len() < p + 2 {
        Err(Error::invalid("MP4: senc subsample count truncated"))
    } else if b.len() < p + 2 + 6 * be16(b, p) {
        Err(Error::invalid("MP4: senc subsample map truncated"))
    } else {
        Ok(
            (
                SencSampleModel {
                    iv: b.subrange(off, p),
                    subsamples: Seq::new(
                        be16(b, p) as nat,
                        |i: int| (be16(b, p + 2 + 6 * i), be32(b, p + 4 + 6 * i)),
                    ),
                },
                p + 2 + 6 * be16(b, p),
            ),
        )
    }
}

/// `n` sample entries from byte `off` on, behind those in `acc`.
pub open spec fn senc_samples(b: Seq<u8>, off: int, n: nat, acc: Seq<SencSampleModel>, iv_size: u8) -> Result<
    (Seq<SencSampleModel>, int),
> {
    items(b, off, n, acc, |b: Seq<u8>, off: int| senc_sample_at(b, off, iv_size))
}

/// The content of a `senc` payload whose initialization vectors have `iv_size` bytes.
pub open spec fn senc_of(b: Seq<u8>, iv_size: u8) -> Result<SencModel> {
    if b.len() < 8 {
        Err(Error::invalid("MP4: senc too short"))
    } else {
        match senc_samples(b, 8, be32(b, 4) as nat, Seq::empty(), iv_size) {
            Err(e) => Err(e),
            Ok((samples, _)) => Ok(SencModel { flags: be24(b, 1), samples }),
        }
    }
}

/// Reads the sample entry at byte `off`.
fn read_senc_sample(body: &[u8], off: usize, iv_size: u8) -> (r: Result<(SencSample, usize)>)
    requires
        4 <= off <= body@.len(),
    ensures
        match r {
            Ok((s, next)) => {
                &&& senc_sample_at(body@, off as int, iv_size) == Ok::<(SencSampleModel, int), Error>((s@, next as int))
                &&& off <= next <= body@.len()
            },
            Err(e) => senc_sample_at(body@, off as int, iv_size) == Err::<(SencSampleModel, int), Error>(e),
        },
{
    let len: usize = body.len();
    if len - off < iv_size as usize {
        return Err(Error::invalid("MP4: senc IV truncated"));
    }
    let p: usize = off + iv_size as usize;
    let iv = copy_bytes(&body[off..p]);
    let mut subsamples: Vec<(u16, u32)> = Vec::new();
    if body[3] & 2 == 0 {
        proof { assert(subsamples@ =~= Seq::<(u16, u32)>::empty()); }
        return Ok((SencSample { iv, subsamples }, p));
    }
    if len - p < 2 {
        return Err(Error::invalid("MP4: senc subsample count truncated"));
    }
    let n: u16 = read_u16(body, p);
    if len - p - 2 < 6 * (n as usize) {
        return Err(Error::invalid("MP4: senc subsample map truncated"));
    }
    let mut i: u16 = 0;
    let mut q: usize = p + 2;
    while i < n
        invariant
            len == body@.len(),
            i <= n,
            q == p + 2 + 6 * i,
            p + 2 + 6 * n <= len,
            subsamples@ =~= Seq::new(i as nat, |k: int| (be16(body@, p + 2 + 6 * k), be32(body@, p + 4 + 6 * k))),
        decreases n - i,
    {
        subsamples.push((read_u16(body, q), read_u32(body, q + 2)));
        q += 6;
        i += 1;
    }
    Ok((SencSample { iv, subsamples }, q))
}

/// Parses a `senc` payload whose initialization vectors have `iv_size` bytes.
pub fn parse_senc(body: &[u8], iv_size: u8) -> (r: Result<SencBox>)
    ensures
        seen(r) == senc_of(body@, iv_size),
{
    if body.len() < 8 {
        return Err(Error::invalid("MP4: senc too short"));
    }
    let count: u32 = read_u32(body, 4);
    let mut samples: Vec<SencSample> = Vec::new();
    let mut off: usize = 8;
    let mut i: u32 = 0;
    proof { assert(views(samples@) =~= Seq::<SencSampleModel>::empty()); }
    while i < count
        invariant
            8 <= off <= body@.len(),
            i <= count,
            count == be32(body@, 4),
            senc_samples(body@, 8, count as nat, Seq::empty(), iv_size) == senc_samples(
                body@,
                off as int,
                (count - i) as nat,
                views(samples@),
                iv_size,
            ),
        decreases count - i,
    {
        let (s, next) = read_senc_sample(body, off, iv_size)?;
        proof { lemma_views_push(samples@, s); }
        samples.push(s);
        off = next;
        i += 1;
    }
    Ok(SencBox { flags: read_u24(body, 1), samples })
}

}
