//! Codes and numbers as bytes: what a four-character code is, and how the header of a box is laid out.
use vstd::prelude::*;
use crate::boxes::{body_of, boxed, child_at, header_at, next_pos, walk, walk_lenient, Child, Outcome};
use crate::bytes::{be16, be24, be32, be64, enc32, enc64, s16, s32, s64, u32_of};
use crate::kinds::{
    ALBM, AUTH, AV1C, AVCC, A_ART, C608, C708, CO64, CPRT, CSGP, CSLG, CTTS, C_ALB, C_ART, C_CMT, C_CPY, C_DAY, C_GEN,
    C_LYR, C_NAM, C_TOO, C_WRT, DAC3, DATA, DEC3, DESC, DFLA, DISK, DOPS, DSCP, EDTS, ELNG, ELST, EMSG, ENCA, ENCS,
    ENCT, ENCV, ESDS, FRMA, FTYP, GNRE, HDLR, HVCC, ILST, KIND, LEVA, MDAT, MDHD, MDIA, MEHD, META, MFHD, MFRA, MINF,
    MOOF, MOOV, MVEX, MVHD, PADB, PDIN, PRFT, PSSH, SAIO, SAIZ, SBGP, SBTL, SBTT, SCHI, SCHM, SDTP, SENC, SGPD, SIDX,
    SINF, SOUN, SSIX, STBL, STCO, STDP, STPP, STRD, STRI, STRK, STSC, STSD, STSG, STSH, STSS, STSZ, STTS, STXT, STYP,
    STZ2, SUBS, SUBT, TENC, TEXT, TFDT, TFHD, TFRA, TITL, TKHD, TRAF, TRAK, TREF, TREP, TREX, TRGR, TRKN, TRUN, TSEL,
    TX3G, UDTA, VIDE, VMHD, VPCC, WVTT, YRRC,
};
use crate::layoutlaws::{at, lemma_at32, lemma_at64, lemma_peel};

verus! {

/// The number of the code with the given letters.
pub open spec fn name(a: char, b: char, c: char, d: char) -> u32 {
    (a as int * 0x100_0000 + b as int * 0x1_0000 + c as int * 0x100 + d as int) as u32
}

/// Each code is that of its letters.
pub proof fn law_codes()
    ensures
        FTYP == name('f', 't', 'y', 'p'),
        STYP == name('s', 't', 'y', 'p'),
        MOOV == name('m', 'o', 'o', 'v'),
        MVHD == name('m', 'v', 'h', 'd'),
        TRAK == name('t', 'r', 'a', 'k'),
        TKHD == name('t', 'k', 'h', 'd'),
        MDIA == name('m', 'd', 'i', 'a'),
        MDHD == name('m', 'd', 'h', 'd'),
        ELNG == name('e', 'l', 'n', 'g'),
        HDLR == name('h', 'd', 'l', 'r'),
        MINF == name('m', 'i', 'n', 'f'),
        VMHD == name('v', 'm', 'h', 'd'),
        STBL == name('s', 't', 'b', 'l'),
        STSD == name('s', 't', 's', 'd'),
        STTS == name('s', 't', 't', 's'),
        STSC == name('s', 't', 's', 'c'),
        STSZ == name('s', 't', 's', 'z'),
        STZ2 == name('s', 't', 'z', '2'),
        STCO == name('s', 't', 'c', 'o'),
        CO64 == name('c', 'o', '6', '4'),
        STSS == name('s', 't', 's', 's'),
        STSH == name('s', 't', 's', 'h'),
        SDTP == name('s', 'd', 't', 'p'),
        STDP == name('s', 't', 'd', 'p'),
        PADB == name('p', 'a', 'd', 'b'),
        CTTS == name('c', 't', 't', 's'),
        CSLG == name('c', 's', 'l', 'g'),
        SBGP == name('s', 'b', 'g', 'p'),
        SGPD == name('s', 'g', 'p', 'd'),
        CSGP == name('c', 's', 'g', 'p'),
        SUBS == name('s', 'u', 'b', 's'),
        SAIZ == name('s', 'a', 'i', 'z'),
        SAIO == name('s', 'a', 'i', 'o'),
        EDTS == name('e', 'd', 't', 's'),
        ELST == name('e', 'l', 's', 't'),
        TREF == name('t', 'r', 'e', 'f'),
        TRGR == name('t', 'r', 'g', 'r'),
        UDTA == name('u', 'd', 't', 'a'),
        KIND == name('k', 'i', 'n', 'd'),
        TSEL == name('t', 's', 'e', 'l'),
        STRK == name('s', 't', 'r', 'k'),
        STRI == name('s', 't', 'r', 'i'),
        STRD == name('s', 't', 'r', 'd'),
        STSG == name('s', 't', 's', 'g'),
        CPRT == name('c', 'p', 'r', 't'),
        META == name('m', 'e', 't', 'a'),
        ILST == name('i', 'l', 's', 't'),
        DATA == name('d', 'a', 't', 'a'),
        MVEX == name('m', 'v', 'e', 'x'),
        TREX == name('t', 'r', 'e', 'x'),
        MEHD == name('m', 'e', 'h', 'd'),
        LEVA == name('l', 'e', 'v', 'a'),
        TREP == name('t', 'r', 'e', 'p'),
        PSSH == name('p', 's', 's', 'h'),
        MOOF == name('m', 'o', 'o', 'f'),
        MFHD == name('m', 'f', 'h', 'd'),
        TRAF == name('t', 'r', 'a', 'f'),
        TFHD == name('t', 'f', 'h', 'd'),
        TFDT == name('t', 'f', 'd', 't'),
        TRUN == name('t', 'r', 'u', 'n'),
        SENC == name('s', 'e', 'n', 'c'),
        SIDX == name('s', 'i', 'd', 'x'),
        SSIX == name('s', 's', 'i', 'x'),
        PDIN == name('p', 'd', 'i', 'n'),
        PRFT == name('p', 'r', 'f', 't'),
        MFRA == name('m', 'f', 'r', 'a'),
        TFRA == name('t', 'f', 'r', 'a'),
        MDAT == name('m', 'd', 'a', 't'),
        SINF == name('s', 'i', 'n', 'f'),
        FRMA == name('f', 'r', 'm', 'a'),
        SCHM == name('s', 'c', 'h', 'm'),
        SCHI == name('s', 'c', 'h', 'i'),
        TENC == name('t', 'e', 'n', 'c'),
        ENCV == name('e', 'n', 'c', 'v'),
        ENCA == name('e', 'n', 'c', 'a'),
        ENCT == name('e', 'n', 'c', 't'),
        ENCS == name('e', 'n', 'c', 's'),
        TITL == name('t', 'i', 't', 'l'),
        AUTH == name('a', 'u', 't', 'h'),
        DSCP == name('d', 's', 'c', 'p'),
        GNRE == name('g', 'n', 'r', 'e'),
        ALBM == name('a', 'l', 'b', 'm'),
        YRRC == name('y', 'r', 'r', 'c'),
        EMSG == name('e', 'm', 's', 'g'),
        SOUN == name('s', 'o', 'u', 'n'),
        VIDE == name('v', 'i', 'd', 'e'),
        SUBT == name('s', 'u', 'b', 't'),
        SBTL == name('s', 'b', 't', 'l'),
        TEXT == name('t', 'e', 'x', 't'),
        DFLA == name('d', 'f', 'L', 'a'),
        DOPS == name('d', 'O', 'p', 's'),
        ESDS == name('e', 's', 'd', 's'),
        DAC3 == name('d', 'a', 'c', '3'),
        DEC3 == name('d', 'e', 'c', '3'),
        AVCC == name('a', 'v', 'c', 'C'),
        HVCC == name('h', 'v', 'c', 'C'),
        AV1C == name('a', 'v', '1', 'C'),
        VPCC == name('v', 'p', 'c', 'C'),
        STPP == name('s', 't', 'p', 'p'),
        SBTT == name('s', 'b', 't', 't'),
        STXT == name('s', 't', 'x', 't'),
        WVTT == name('w', 'v', 't', 't'),
        TX3G == name('t', 'x', '3', 'g'),
        C608 == name('c', '6', '0', '8'),
        C708 == name('c', '7', '0', '8'),
        A_ART == name('a', 'A', 'R', 'T'),
        TRKN == name('t', 'r', 'k', 'n'),
        DISK == name('d', 'i', 's', 'k'),
        DESC == name('d', 'e', 's', 'c'),
        C_NAM == name('\u{A9}', 'n', 'a', 'm'),
        C_ART == name('\u{A9}', 'A', 'R', 'T'),
        C_ALB == name('\u{A9}', 'a', 'l', 'b'),
        C_CMT == name('\u{A9}', 'c', 'm', 't'),
        C_GEN == name('\u{A9}', 'g', 'e', 'n'),
        C_DAY == name('\u{A9}', 'd', 'a', 'y'),
        C_WRT == name('\u{A9}', 'w', 'r', 't'),
        C_TOO == name('\u{A9}', 't', 'o', 'o'),
        C_CPY == name('\u{A9}', 'c', 'p', 'y'),
        C_LYR == name('\u{A9}', 'l', 'y', 'r'),
{
}

/// Numbers have their most significant byte first.
pub proof fn law_big_endian(b: Seq<u8>, i: int)
    ensures
        be16(b, i) == b[i] * 0x100 + b[i + 1],
        be24(b, i) == b[i] * 0x1_0000 + b[i + 1] * 0x100 + b[i + 2],
        be32(b, i) == b[i] * 0x100_0000 + b[i + 1] * 0x1_0000 + b[i + 2] * 0x100 + b[i + 3],
        be64(b, i) == be32(b, i) * 0x1_0000_0000 + be32(b, i + 4),
{
    reveal(be16);
    reveal(be24);
    reveal(be32);
    reveal(be64);
}

/// The bytes of a number are those of its digits, the most significant first.
pub proof fn law_bytes_of(x: u32)
    ensures
        enc32(x).len() == 4,
        x == enc32(x)[0] * 0x100_0000 + enc32(x)[1] * 0x1_0000 + enc32(x)[2] * 0x100 + enc32(x)[3],
{
}

/// A pattern stands for a number that differs from it by a multiple of the number of patterns.
pub proof fn law_signed(x: u16, y: u32, z: u64)
    ensures
        s16(x) == x || s16(x) == x - 0x1_0000,
        s32(y) == y || s32(y) == y - 0x1_0000_0000,
        s64(z) == z || s64(z) == z - 0x1_0000_0000_0000_0000,
        u32_of(s32(y)) == y,
{
}

/// A box that starts with its size, its code and then, where the size is 1, a long size: the payload starts behind
/// them, and the next box where it ends.
pub proof fn law_long_box(b: Seq<u8>, pos: int, code: u32, payload: Seq<u8>)
    requires
        at(b, pos, enc32(1) + enc32(code) + enc64((16 + payload.len()) as u64) + payload),
        16 + payload.len() <= u64::MAX,
    ensures
        header_at(b, pos) matches Ok(h) && {
            &&& h.kind == code
            &&& child_at(b, pos, h).data == payload
            &&& child_at(b, pos, h).whole
            &&& next_pos(b, pos, h) == pos + 16 + payload.len()
        },
{
    let n = (16 + payload.len()) as u64;
    let x2 = enc32(1) + enc32(code);
    lemma_peel(b, pos, x2 + enc64(n), payload);
    lemma_peel(b, pos, x2, enc64(n));
    lemma_peel(b, pos, enc32(1), enc32(code));
    lemma_at32(b, pos, 1);
    lemma_at32(b, pos + 4, code);
    lemma_at64(b, pos + 8, n);
}

/// A box in a container whose size is 0 has no payload: the next one starts behind its header.
pub proof fn law_open_box(b: Seq<u8>, pos: int, code: u32)
    requires
        at(b, pos, enc32(0) + enc32(code)),
    ensures
        header_at(b, pos) matches Ok(h) && {
            &&& h.kind == code
            &&& h.total_size is None
            &&& child_at(b, pos, h).data.len() == 0
            &&& child_at(b, pos, h).whole
            &&& next_pos(b, pos, h) == pos + 8
        },
{
    lemma_peel(b, pos, enc32(0), enc32(code));
    lemma_at32(b, pos, 0);
    lemma_at32(b, pos + 4, code);
}

/// A box that is longer than what is left of its container is not whole; one that is smaller than its header is
/// refused.
pub proof fn law_short_box(b: Seq<u8>, pos: int, size: u32, code: u32)
    requires
        at(b, pos, enc32(size) + enc32(code)),
        size > 1,
    ensures
        size < 8 ==> header_at(b, pos) is Err,
        size >= 8 ==> (header_at(b, pos) matches Ok(h) && h.kind == code && (child_at(b, pos, h).whole <==> pos + size
            <= b.len())),
{
    lemma_peel(b, pos, enc32(size), enc32(code));
    lemma_at32(b, pos, size);
    lemma_at32(b, pos + 4, code);
}

/// A box is written as its size, its code and its payload.
pub proof fn law_box_written(code: u32, payload: Seq<u8>)
    requires
        8 + payload.len() < 0x1_0000_0000,
    ensures
        boxed(code, payload).len() == 8 + payload.len(),
        boxed(code, payload).take(4) == enc32((8 + payload.len()) as u32),
        boxed(code, payload).subrange(4, 8) == enc32(code),
        boxed(code, payload).skip(8) == payload,
{
    let b = boxed(code, payload);
    assert(b.take(4) =~= enc32((8 + payload.len()) as u32));
    assert(b.subrange(4, 8) =~= enc32(code));
    assert(b.skip(8) =~= payload);
}

/// A box with a long size that is smaller than its header is refused, and so is a header that is cut off.
pub proof fn law_bad_header(b: Seq<u8>, pos: int, code: u32, size: u64)
    ensures
        at(b, pos, enc32(1) + enc32(code) + enc64(size)) && size < 16 ==> header_at(b, pos) is Err,
        at(b, pos, enc32(1) + enc32(code)) && b.len() < pos + 16 ==> header_at(b, pos) is Err,
        b.len() < pos + 8 ==> header_at(b, pos) is Err,
{
    if at(b, pos, enc32(1) + enc32(code) + enc64(size)) && size < 16 {
        lemma_peel(b, pos, enc32(1) + enc32(code), enc64(size));
        lemma_peel(b, pos, enc32(1), enc32(code));
        lemma_at32(b, pos, 1);
        lemma_at64(b, pos + 8, size);
    }
    if at(b, pos, enc32(1) + enc32(code)) && b.len() < pos + 16 {
        lemma_peel(b, pos, enc32(1), enc32(code));
        lemma_at32(b, pos, 1);
    }
}

/// The payload of a box is read only where it is whole.
pub proof fn law_whole_box(c: Child)
    ensures
        c.whole ==> body_of(c) == Ok::<Seq<u8>, crate::error::Error>(c.data),
        !c.whole ==> body_of(c) is Err,
{
}

/// A walk that does not fail ends before a box that is cut off, and before a header that cannot be read; a walk that
/// can fail fails at such a header.
pub proof fn law_walk_ends<S>(
    b: Seq<u8>,
    pos: int,
    s: S,
    step: spec_fn(S, Child) -> Outcome<S>,
    lenient: spec_fn(S, Child) -> S,
)
    requires
        0 <= pos < b.len(),
    ensures
        header_at(b, pos) is Err ==> walk(b, pos, s, step).1 is Err && walk(b, pos, s, step).0 == s && walk_lenient(
            b,
            pos,
            s,
            lenient,
        ) == s,
        header_at(b, pos) is Ok && !child_at(b, pos, header_at(b, pos)->Ok_0).whole ==> walk_lenient(b, pos, s, lenient) == s,
{
}

}
