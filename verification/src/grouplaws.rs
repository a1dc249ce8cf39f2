//! How compact sample groups are laid out, field by field of bits.
use vstd::prelude::*;
use crate::bytes::enc32;
use crate::groups::{bit_fields, bits, csgp_length_at, csgp_lengths, csgp_of, csgp_patterns, csgp_width};
use crate::layoutlaws::{at, lemma_at32, lemma_peel};
use crate::protectlaws::lemma_code_at;
use crate::track::CsgpPatternModel;

verus! {

/// The eight bits of a byte are the byte, and the four in each half that half.
#[verifier::rlimit(40)]
pub proof fn law_bits_of_byte(b: Seq<u8>, i: int)
    requires
        0 <= i,
    ensures
        bits(b, 8 * i, 8) == b[i],
        bits(b, 8 * i, 4) == b[i] as int / 16,
        bits(b, 8 * i + 4, 4) == b[i] as int % 16,
{
    reveal_with_fuel(bits, 9);
    let p = 8 * i;
    assert(p / 8 == i && (p + 1) / 8 == i && (p + 2) / 8 == i && (p + 3) / 8 == i && (p + 4) / 8 == i && (p + 5) / 8 == i && (
    p + 6) / 8 == i && (p + 7) / 8 == i);
    assert(p % 8 == 0 && (p + 1) % 8 == 1 && (p + 2) % 8 == 2 && (p + 3) % 8 == 3 && (p + 4) % 8 == 4 && (p + 5) % 8 == 5 && (
    p + 6) % 8 == 6 && (p + 7) % 8 == 7);
}

/// Where the indices of the `i`th pattern start: behind those of the patterns before it.
pub open spec fn indices_start(x: Seq<CsgpPatternModel>, i: int, start: int, w: int) -> int
    decreases i,
{
    if i <= 0 { start } else { indices_start(x, i - 1, start, w) + w * x[i - 1].indices.len() }
}

/// The widths of fields by their code.
pub open spec fn field_width(code: int) -> int {
    if code == 0 {
        4
    } else if code == 1 {
        8
    } else if code == 2 {
        16
    } else {
        32
    }
}

/// Whether the patterns are those written as bits from bit `start` on: first the length and the number of samples of
/// each, then the indices of each.
pub open spec fn patterns_stand(b: Seq<u8>, x: Seq<CsgpPatternModel>, start: int, pw: int, cw: int, iw: int) -> bool {
    &&& forall|i: int| 0 <= i < x.len() ==> {
        &&& (#[trigger] x[i]).indices.len() == bits(b, start + (pw + cw) * i, pw as nat)
        &&& x[i].sample_count == bits(b, start + (pw + cw) * i + pw, cw as nat)
    }
    &&& forall|i: int, j: int| 0 <= i < x.len() && 0 <= j < x[i].indices.len() ==> #[trigger] x[i].indices[j] == bits(
        b,
        indices_start(x, i, start + (pw + cw) * x.len(), iw) + iw * j,
        iw as nat,
    )
}

proof fn lemma_bits_small(b: Seq<u8>, pos: int, n: nat)
    requires
        n <= 32,
    ensures
        bits(b, pos, n) < vstd::arithmetic::power2::pow2(n),
    decreases n,
{
    if n > 0 {
        lemma_bits_small(b, pos, (n - 1) as nat);
        vstd::arithmetic::power2::lemma_pow2_unfold(n);
    } else {
        vstd::arithmetic::power2::lemma2_to64();
    }
}

proof fn lemma_bits32(b: Seq<u8>, pos: int, n: nat)
    requires
        n == 4 || n == 8 || n == 16 || n == 32,
    ensures
        bits(b, pos, n) <= u32::MAX,
{
    lemma_bits_small(b, pos, n);
    vstd::arithmetic::power2::lemma2_to64();
}

proof fn lemma_lengths(b: Seq<u8>, start: int, pos: int, n: nat, acc: Seq<(u32, u32)>, pw: nat, cw: nat)
    requires
        csgp_lengths(b, pos, n, acc, pw, cw) is Ok,
        pos == start + (pw + cw) * acc.len(),
        pw == 4 || pw == 8 || pw == 16 || pw == 32,
        cw == 4 || cw == 8 || cw == 16 || cw == 32,
        forall|i: int| 0 <= i < acc.len() ==> (#[trigger] acc[i]).0 == bits(b, start + (pw + cw) * i, pw) && acc[i].1 == bits(
            b,
            start + (pw + cw) * i + pw,
            cw,
        ),
    ensures
        ({
            let (l, end) = csgp_lengths(b, pos, n, acc, pw, cw)->Ok_0;
            &&& l.len() == acc.len() + n
            &&& end == start + (pw + cw) * l.len()
            &&& forall|i: int| 0 <= i < l.len() ==> (#[trigger] l[i]).0 == bits(b, start + (pw + cw) * i, pw) && l[i].1 == bits(
                b,
                start + (pw + cw) * i + pw,
                cw,
            )
        }),
    decreases n,
{
    let item = |b: Seq<u8>, pos: int| csgp_length_at(b, pos, pw, cw);
    if n > 0 {
        lemma_bits32(b, pos, pw);
        lemma_bits32(b, pos + pw, cw);
        let r = csgp_length_at(b, pos, pw, cw);
        assert(item(b, pos) == r);
        let (x, next) = r->Ok_0;
        let acc2 = acc.push(x);
        let k = acc.len() as int;
        let w = (pw + cw) as int;
        assert(w * (k + 1) == w * k + w) by (nonlinear_arith);
        assert forall|i: int| 0 <= i < acc2.len() implies (#[trigger] acc2[i]).0 == bits(b, start + (pw + cw) * i, pw)
            && acc2[i].1 == bits(b, start + (pw + cw) * i + pw, cw) by {
            if i < acc.len() {
                assert(acc2[i] == acc[i]);
            }
        }
        assert(csgp_lengths(b, pos, n, acc, pw, cw) == csgp_lengths(b, next, (n - 1) as nat, acc2, pw, cw));
        lemma_lengths(b, start, next, (n - 1) as nat, acc2, pw, cw);
    }
}

/// Whether the patterns have the lengths and numbers of samples, and their indices stand where they should.
spec fn patterns_done(b: Seq<u8>, x: Seq<CsgpPatternModel>, l: Seq<(u32, u32)>, start: int, w: nat) -> bool {
    &&& x.len() <= l.len()
    &&& forall|i: int| 0 <= i < x.len() ==> (#[trigger] x[i]).indices.len() == l[i].0 && x[i].sample_count == l[i].1
    &&& forall|i: int, j: int| 0 <= i < x.len() && 0 <= j < x[i].indices.len() ==> #[trigger] x[i].indices[j] == bits(
        b,
        indices_start(x, i, start, w as int) + w * j,
        w,
    )
}

proof fn lemma_start_push(x: Seq<CsgpPatternModel>, p: CsgpPatternModel, i: int, start: int, w: int)
    requires
        0 <= i <= x.len(),
    ensures
        indices_start(x.push(p), i, start, w) == indices_start(x, i, start, w),
    decreases i,
{
    if i > 0 {
        lemma_start_push(x, p, i - 1, start, w);
    }
}

proof fn lemma_patterns(b: Seq<u8>, l: Seq<(u32, u32)>, x: Seq<CsgpPatternModel>, start: int, w: nat)
    requires
        w == 4 || w == 8 || w == 16 || w == 32,
        patterns_done(b, x, l, start, w),
        csgp_patterns(b, indices_start(x, x.len() as int, start, w as int), l.skip(x.len() as int), x, w) is Ok,
    ensures
        ({
            let y = csgp_patterns(
                b,
                indices_start(x, x.len() as int, start, w as int),
                l.skip(x.len() as int),
                x,
                w,
            )->Ok_0;
            &&& patterns_done(b, y, l, start, w)
            &&& y.len() == l.len()
        }),
    decreases l.len() - x.len(),
{
    let k = x.len() as int;
    let rest = l.skip(k);
    if rest.len() > 0 {
        let pos = indices_start(x, k, start, w as int);
        let p = CsgpPatternModel { sample_count: rest[0].1, indices: bit_fields(b, pos, rest[0].0 as nat, w) };
        let x2 = x.push(p);
        assert(rest[0] == l[k]);
        assert(rest.drop_first() =~= l.skip(k + 1));
        lemma_start_push(x, p, k, start, w as int);
        assert(indices_start(x2, k + 1, start, w as int) == pos + w * rest[0].0);
        assert forall|i: int| 0 <= i < x2.len() implies (#[trigger] x2[i]).indices.len() == l[i].0 && x2[i].sample_count
            == l[i].1 by {
            if i < k {
                assert(x2[i] == x[i]);
            }
        }
        assert forall|i: int, j: int| 0 <= i < x2.len() && 0 <= j < x2[i].indices.len() implies #[trigger] x2[i].indices[j]
            == bits(b, indices_start(x2, i, start, w as int) + w * j, w) by {
            lemma_start_push(x, p, i, start, w as int);
            if i < k {
                assert(x2[i] == x[i]);
                assert(x[i].indices[j] == bits(b, indices_start(x, i, start, w as int) + w * j, w));
            } else {
                lemma_bits32(b, pos + w * j, w);
            }
        }
        lemma_patterns(b, l, x2, start, w);
    }
}

/// A compact sample to group box gives a kind, a parameter where its flags announce one, and patterns, whose fields are
/// as wide as its flags say: two bits each for the indices, the numbers of samples and the lengths.
pub proof fn law_csgp_layout(b: Seq<u8>, v: Seq<u8>, kind: [u8; 4], parameter: Option<u32>, n: u32)
    requires
        v.len() == 4,
        parameter is Some == (v[3] as int / 64 % 2 == 1),
        at(
            b,
            0,
            v + kind@ + (match parameter {
                Some(p) => enc32(p),
                None => Seq::empty(),
            }) + enc32(n),
        ),
        csgp_of(b) is Ok,
    ensures
        ({
            let x = csgp_of(b)->Ok_0;
            let start = 8 * (if parameter is Some { 16int } else { 12int });
            &&& x.grouping_type == kind
            &&& x.grouping_type_parameter == parameter
            &&& x.patterns.len() == n
            &&& patterns_stand(
                b,
                x.patterns,
                start,
                field_width(v[3] as int / 16 % 4),
                field_width(v[3] as int / 4 % 4),
                field_width(v[3] as int % 4),
            )
        }),
{
    let o = match parameter {
        Some(p) => enc32(p),
        None => Seq::empty(),
    };
    let h = v + kind@;
    lemma_peel(b, 0, h + o, enc32(n));
    lemma_peel(b, 0, h, o);
    lemma_peel(b, 0, v, kind@);
    assert(b.subrange(0, 4)[3] == b[3]);
    lemma_code_at(b, 4, kind);
    if let Some(p) = parameter {
        lemma_at32(b, 8, p);
    }
    let p = (h + o).len() as int;
    lemma_at32(b, p, n);
    let pw = csgp_width(b[3] as int / 16 % 4);
    let cw = csgp_width(b[3] as int / 4 % 4);
    let iw = csgp_width(b[3] as int % 4);
    let start = 8 * (p + 4);
    assert((pw + cw) * 0 == 0);
    lemma_lengths(b, start, start, n as nat, Seq::empty(), pw, cw);
    let (l, end) = csgp_lengths(b, start, n as nat, Seq::empty(), pw, cw)->Ok_0;
    let none = Seq::<CsgpPatternModel>::empty();
    assert(l.skip(0) =~= l);
    assert(indices_start(none, 0, end, iw as int) == end);
    lemma_patterns(b, l, none, end, iw);
}

}
