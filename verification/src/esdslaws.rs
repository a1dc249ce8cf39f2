//! How an elementary stream descriptor is laid out.
use vstd::prelude::*;
use crate::esds::{ber, descr_at, dsi_in, es_parts, es_parts_pos, esds_of, with_config, EsdsModel};
use crate::layoutlaws::{at, lemma_peel, lemma_whole};

verus! {

/// A length in `k` bytes, seven bits in each, all but the last one with the top bit set.
pub open spec fn length_layout(n: int, k: int) -> Seq<u8> {
    if k == 1 {
        seq![n as u8]
    } else if k == 2 {
        seq![(128 + n / 128) as u8, (n % 128) as u8]
    } else if k == 3 {
        seq![(128 + n / 16384) as u8, (128 + n / 128 % 128) as u8, (n % 128) as u8]
    } else {
        seq![
            (128 + n / 2097152) as u8,
            (128 + n / 16384 % 128) as u8,
            (128 + n / 128 % 128) as u8,
            (n % 128) as u8,
        ]
    }
}

/// Whether a length fits in `k` bytes, of which there are four at most.
pub open spec fn length_fits(n: int, k: int) -> bool {
    ||| k == 1 && 0 <= n < 128
    ||| k == 2 && 0 <= n < 16384
    ||| k == 3 && 0 <= n < 2097152
    ||| k == 4 && 0 <= n < 268435456
}

/// A descriptor: tag, length in `k` bytes, content.
pub open spec fn tagged(tag: u8, k: int, d: Seq<u8>) -> Seq<u8> {
    seq![tag] + length_layout(d.len() as int, k) + d
}

proof fn lemma_length(b: Seq<u8>, p: int, n: int, k: int)
    requires
        length_fits(n, k),
        at(b, p, length_layout(n, k)),
    ensures
        ber(b, p, 4, 0) == Some((n as nat, p + k)),
        length_layout(n, k).len() == k,
{
    reveal_with_fuel(ber, 5);
    let w = length_layout(n, k);
    assert(w.len() == k);
    assert forall|i: int| 0 <= i < k implies #[trigger] b[p + i] == w[i] by {
        assert(b.subrange(p, p + w.len())[i] == b[p + i]);
    }
    assert(b[p + 0] == w[0]);
    if k >= 2 {
        assert(b[p + 1] == w[1]);
    }
    if k >= 3 {
        assert(b[p + 2] == w[2]);
    }
    if k >= 4 {
        assert(b[p + 3] == w[3]);
    }
    if k == 2 {
        assert(n == n / 128 * 128 + n % 128);
    } else if k == 3 {
        assert(n / 128 == n / 16384 * 128 + n / 128 % 128);
    } else if k == 4 {
        assert(n / 128 == n / 16384 * 128 + n / 128 % 128);
        assert(n / 16384 == n / 2097152 * 128 + n / 16384 % 128);
    }
}

/// The header of a descriptor is read.
proof fn lemma_tagged(b: Seq<u8>, p: int, tag: u8, k: int, d: Seq<u8>)
    requires
        length_fits(d.len() as int, k),
        at(b, p, tagged(tag, k, d)),
    ensures
        descr_at(b, p) == Some((tag, d.len(), p + 1 + k)),
        at(b, p + 1 + k, d),
        tagged(tag, k, d).len() == 1 + k + d.len(),
{
    let n = d.len() as int;
    lemma_peel(b, p, seq![tag] + length_layout(n, k), d);
    lemma_peel(b, p, seq![tag], length_layout(n, k));
    lemma_length(b, p + 1, n, k);
    assert(b.subrange(p, p + 1)[0] == b[p]);
}

/// The fields of an elementary stream descriptor: in how many bytes its lengths are written, the identifier,
/// what its flags announce, and the decoder configuration.
pub ghost struct DescriptorFields {
    pub k: int,
    pub k_config: int,
    pub k_dsi: int,
    pub k_sl: int,
    pub id: Seq<u8>,
    pub depends_on: Option<Seq<u8>>,
    pub url: Option<Seq<u8>>,
    pub clock: Option<Seq<u8>>,
    pub priority: u8,
    pub oti: u8,
    pub rates: Seq<u8>,
    pub dsi: Seq<u8>,
    pub sl: Seq<u8>,
}

/// Bytes that may be missing.
pub open spec fn opt_bytes(o: Option<Seq<u8>>) -> Seq<u8> {
    match o {
        Some(x) => x,
        None => Seq::empty(),
    }
}

/// A name that may be missing, behind its length.
pub open spec fn opt_counted(o: Option<Seq<u8>>) -> Seq<u8> {
    match o {
        Some(x) => seq![x.len() as u8] + x,
        None => Seq::empty(),
    }
}

impl DescriptorFields {
    /// The flags.
    pub open spec fn flags(self) -> u8 {
        ((if self.depends_on is Some { 128int } else { 0 }) + (if self.url is Some { 64int } else { 0 }) + (
        if self.clock is Some { 32int } else { 0 }) + self.priority) as u8
    }

    /// The content of the decoder configuration.
    pub open spec fn config(self) -> Seq<u8> {
        seq![self.oti] + self.rates + tagged(5, self.k_dsi, self.dsi)
    }

    /// What comes before the decoder configuration.
    pub open spec fn head(self) -> Seq<u8> {
        self.id + seq![self.flags()] + opt_bytes(self.depends_on) + opt_counted(self.url) + opt_bytes(self.clock)
    }

    /// The content of the descriptor.
    pub open spec fn content(self) -> Seq<u8> {
        self.head() + tagged(4, self.k_config, self.config()) + tagged(6, self.k_sl, self.sl)
    }

    /// Whether each field is as long as it has to be.
    pub open spec fn fits(self) -> bool {
        &&& self.id.len() == 2
        &&& self.priority < 32
        &&& self.depends_on is Some ==> self.depends_on->Some_0.len() == 2
        &&& self.clock is Some ==> self.clock->Some_0.len() == 2
        &&& self.url is Some ==> self.url->Some_0.len() < 256
        &&& self.rates.len() == 12
        &&& length_fits(self.dsi.len() as int, self.k_dsi)
        &&& length_fits(self.config().len() as int, self.k_config)
        &&& length_fits(self.sl.len() as int, self.k_sl)
        &&& length_fits(self.content().len() as int, self.k)
    }
}

/// The bytes of an elementary stream descriptor.
pub open spec fn descriptor_layout(d: DescriptorFields) -> Seq<u8> {
    tagged(3, d.k, d.content())
}

/// The parts of the descriptor start behind what its flags announce.
proof fn lemma_head(b: Seq<u8>, p: int, end: int, d: DescriptorFields)
    requires
        d.fits(),
        at(b, p, d.head()),
        p + d.head().len() < end,
    ensures
        es_parts_pos(b, p, end) == Some(p + d.head().len()),
{
    let h3 = d.id + seq![d.flags()];
    let h2 = h3 + opt_bytes(d.depends_on);
    let h1 = h2 + opt_counted(d.url);
    lemma_peel(b, p, h1, opt_bytes(d.clock));
    lemma_peel(b, p, h2, opt_counted(d.url));
    lemma_peel(b, p, h3, opt_bytes(d.depends_on));
    lemma_peel(b, p, d.id, seq![d.flags()]);
    assert(b.subrange(p + 2, p + 3)[0] == b[p + 2]);
    let f = d.flags();
    assert(b[p + 2] == f);
    assert(f / 128 == (if d.depends_on is Some { 1u8 } else { 0 }));
    assert(f / 64 % 2 == (if d.url is Some { 1u8 } else { 0 }));
    assert(f / 32 % 2 == (if d.clock is Some { 1u8 } else { 0 }));
    if let Some(x) = d.url {
        let q = p + h2.len();
        lemma_peel(b, q, seq![x.len() as u8], x);
        assert(b.subrange(q, q + 1)[0] == b[q]);
    }
}

/// The decoder configuration is read.
proof fn lemma_config(b: Seq<u8>, p: int, d: DescriptorFields, info: EsdsModel)
    requires
        d.fits(),
        at(b, p, d.config()),
    ensures
        with_config(b, p, p + d.config().len(), info) == (EsdsModel { dsi: d.dsi, oti: Some(d.oti) }),
        d.config().len() >= 15,
{
    let end = p + d.config().len();
    lemma_peel(b, p, seq![d.oti] + d.rates, tagged(5, d.k_dsi, d.dsi));
    lemma_peel(b, p, seq![d.oti], d.rates);
    assert(b.subrange(p, p + 1)[0] == b[p]);
    lemma_tagged(b, p + 13, 5, d.k_dsi, d.dsi);
    let start = p + 14 + d.k_dsi;
    assert(start + d.dsi.len() == end);
    assert(b.subrange(start, start + d.dsi.len()) == d.dsi);
    assert(dsi_in(b, p + 13, end) == Some(d.dsi));
}

/// An elementary stream descriptor gives the object type and the decoder specific information that are written
/// in its decoder configuration, whatever its flags announce before it and in however many bytes its lengths
/// are written.
pub proof fn law_descriptor_layout(d: DescriptorFields)
    requires
        d.fits(),
    ensures
        esds_of(descriptor_layout(d)) == Some(EsdsModel { dsi: d.dsi, oti: Some(d.oti) }),
{
    let b = descriptor_layout(d);
    lemma_whole(b);
    lemma_tagged(b, 0, 3, d.k, d.content());
    let p = 1 + d.k;
    let end = p + d.content().len();
    let t4 = tagged(4, d.k_config, d.config());
    let t6 = tagged(6, d.k_sl, d.sl);
    lemma_peel(b, p, d.head() + t4, t6);
    lemma_peel(b, p, d.head(), t4);
    let q = p + d.head().len();
    lemma_tagged(b, q, 4, d.k_config, d.config());
    let c = q + 1 + d.k_config;
    let e = c + d.config().len();
    let blank = EsdsModel { dsi: Seq::empty(), oti: None };
    lemma_config(b, c, d, blank);
    lemma_tagged(b, e, 6, d.k_sl, d.sl);
    lemma_head(b, p, end, d);
    let done = EsdsModel { dsi: d.dsi, oti: Some(d.oti) };
    assert(es_parts(b, end, end, done) == done);
    assert(es_parts(b, e, end, done) == done);
    assert(es_parts(b, q, end, blank) == es_parts(b, e, end, done));
}

}
