//! Texts and the numbers in them.
use vstd::prelude::*;
use crate::bytes::be16;
use crate::stream::{
    count, disposable_count, greatest, greatest_byte, independent_count, leading_count, least, pad_count, padded_count,
    redundant_count, total,
};
use crate::text::{
    dec, digit, first_nul, hex2, hex8, hex_from, is_leading, is_trailing, is_white_space, list_from, sdec, trim_end,
    trim_nuls, trim_start, trimmed, utf16_text, utf16_units,
};
use crate::track::SdtpEntry;

verus! {

/// The number that a character stands for as a digit.
pub open spec fn digit_value(c: char) -> int {
    if '0' <= c <= '9' { c as int - '0' as int } else { c as int - 'a' as int + 10 }
}

/// The number that digits of the given base stand for, the most significant first.
pub open spec fn number_value(s: Seq<char>, base: int) -> int
    decreases s.len(),
{
    if s.len() == 0 { 0 } else { number_value(s.drop_last(), base) * base + digit_value(s.last()) }
}

/// Whether all characters are decimal digits.
pub open spec fn decimal(s: Seq<char>) -> bool {
    forall|i: int| 0 <= i < s.len() ==> '0' <= #[trigger] s[i] <= '9'
}

/// A number is written in decimal digits that stand for it, without a needless 0 in front.
pub proof fn law_decimal(n: nat)
    ensures
        number_value(dec(n), 10) == n,
        decimal(dec(n)),
        dec(n).len() > 0,
        dec(n)[0] == '0' ==> n == 0,
    decreases n,
{
    let d = (n % 10) as int;
    if n < 10 {
        let s = seq![digit(n as int)];
        assert(dec(n) == s);
        assert(s.drop_last() =~= Seq::empty());
        assert(number_value(s.drop_last(), 10) == 0);
        assert(s.last() == digit(n as int));
    } else {
        law_decimal(n / 10);
        let a = dec(n / 10);
        let s = a.push(digit(d));
        assert(dec(n) == s);
        assert(s.drop_last() =~= a);
        assert(s.last() == digit(d));
        assert forall|i: int| 0 <= i < s.len() implies '0' <= #[trigger] s[i] <= '9' by {
            if i < a.len() {
                assert(s[i] == a[i]);
            }
        }
        assert(s[0] == a[0]);
    }
}

/// A negative number is written as that which is opposite to it behind a minus sign.
pub proof fn law_signed_decimal(n: int)
    ensures
        n >= 0 ==> number_value(sdec(n), 10) == n && decimal(sdec(n)),
        n < 0 ==> sdec(n).len() > 0 && sdec(n)[0] == '-' && number_value(sdec(n).drop_first(), 10) == -n && decimal(
            sdec(n).drop_first(),
        ),
{
    if n < 0 {
        law_decimal((-n) as nat);
        assert(sdec(n).drop_first() =~= dec((-n) as nat));
    } else {
        law_decimal(n as nat);
    }
}

/// A byte is written in two hexadecimal digits that stand for it.
pub proof fn law_hex_byte(b: u8)
    ensures
        hex2(b).len() == 2,
        digit_value(hex2(b)[0]) * 16 + digit_value(hex2(b)[1]) == b,
        0 <= digit_value(hex2(b)[0]) < 16,
        0 <= digit_value(hex2(b)[1]) < 16,
{
}

/// A word is written in eight hexadecimal digits, the most significant first.
pub proof fn law_hex_word(n: u32)
    ensures
        hex8(n).len() == 8,
        ({
            let d = |i: int| digit_value(hex8(n)[i]);
            d(0) * 0x1000_0000 + d(1) * 0x100_0000 + d(2) * 0x10_0000 + d(3) * 0x1_0000 + d(4) * 0x1000 + d(5) * 0x100 + d(6)
                * 0x10 + d(7) == n
        }),
{
    let a = (n / 0x100_0000) as u8;
    let b = (n / 0x1_0000 % 0x100) as u8;
    let c = (n / 0x100 % 0x100) as u8;
    let e = (n % 0x100) as u8;
    law_hex_byte(a);
    law_hex_byte(b);
    law_hex_byte(c);
    law_hex_byte(e);
    let h = hex8(n);
    assert(h[0] == hex2(a)[0] && h[1] == hex2(a)[1] && h[2] == hex2(b)[0] && h[3] == hex2(b)[1]);
    assert(h[4] == hex2(c)[0] && h[5] == hex2(c)[1] && h[6] == hex2(e)[0] && h[7] == hex2(e)[1]);
    assert(n == a * 0x100_0000 + b * 0x1_0000 + c * 0x100 + e);
}

/// Bytes are written one behind the other in hexadecimal digits, two for each.
pub proof fn law_hex_bytes(b: Seq<u8>, i: int)
    requires
        0 <= i < b.len(),
    ensures
        hex_from(Seq::empty(), b, 0).len() == 2 * b.len(),
        hex_from(Seq::empty(), b, 0).subrange(2 * i, 2 * i + 2) == hex2(b[i]),
{
    lemma_hex_from(Seq::empty(), b, 0, i);
}

proof fn lemma_hex_from(acc: Seq<char>, b: Seq<u8>, j: int, i: int)
    requires
        0 <= j <= b.len(),
        0 <= i < b.len(),
    ensures
        ({
            let h = hex_from(acc, b, j);
            &&& h.len() == acc.len() + 2 * (b.len() - j)
            &&& h.take(acc.len() as int) == acc
            &&& j <= i ==> h.subrange(acc.len() + 2 * (i - j), acc.len() + 2 * (i - j) + 2) == hex2(b[i])
        }),
    decreases b.len() - j,
{
    if j < b.len() {
        let acc2 = acc + hex2(b[j]);
        lemma_hex_from(acc2, b, j + 1, i);
        let h = hex_from(acc, b, j);
        assert(h.take(acc2.len() as int) == acc2);
        assert(h.take(acc.len() as int) =~= acc2.take(acc.len() as int));
        assert(acc2.take(acc.len() as int) =~= acc);
        if i == j {
            let n = acc.len() as int;
            assert(h.subrange(n, n + 2) =~= h.take(n + 2).subrange(n, n + 2));
            assert(acc2.subrange(n, n + 2) =~= hex2(b[j]));
        }
    } else {
        assert(acc.take(acc.len() as int) =~= acc);
    }
}

/// Whether all characters of `s` from `i` up to `j` are white space.
pub open spec fn blank(s: Seq<char>, i: int, j: int) -> bool {
    forall|k: int| i <= k < j ==> is_white_space(#[trigger] s[k])
}

/// Text without white space around it is a part of the text: what was before and behind it is white space, and it
/// neither starts nor ends with any.
pub proof fn law_trimmed(s: Seq<char>) -> (r: (int, int))
    ensures
        0 <= r.0 <= r.1 <= s.len(),
        trimmed(s) == s.subrange(r.0, r.1),
        blank(s, 0, r.0),
        blank(s, r.1, s.len() as int),
        r.0 < r.1 ==> !is_white_space(s[r.0]) && !is_white_space(s[r.1 - 1]),
{
    let i = lemma_trim_start(s);
    let t = trim_start(s);
    let n = lemma_trim_end(t);
    let j = i + n;
    assert(t == s.subrange(i, s.len() as int));
    assert(trimmed(s) =~= s.subrange(i, j));
    assert forall|k: int| j <= k < s.len() implies is_white_space(#[trigger] s[k]) by {
        assert(t[k - i] == s[k]);
    }
    if i < j {
        assert(t[0] == s[i]);
        assert(t[n - 1] == s[j - 1]);
    }
    (i, j)
}

proof fn lemma_trim_start(s: Seq<char>) -> (i: int)
    ensures
        0 <= i <= s.len(),
        trim_start(s) == s.subrange(i, s.len() as int),
        blank(s, 0, i),
        i < s.len() ==> !is_white_space(s[i]),
    decreases s.len(),
{
    if s.len() > 0 && is_white_space(s[0]) {
        let rest = s.drop_first();
        let i = lemma_trim_start(rest);
        assert(rest.subrange(i, rest.len() as int) =~= s.subrange(i + 1, s.len() as int));
        assert forall|k: int| 0 <= k < i + 1 implies is_white_space(#[trigger] s[k]) by {
            if k > 0 {
                assert(rest[k - 1] == s[k]);
            }
        }
        i + 1
    } else {
        assert(s.subrange(0, s.len() as int) =~= s);
        0
    }
}

proof fn lemma_trim_end(s: Seq<char>) -> (n: int)
    ensures
        0 <= n <= s.len(),
        trim_end(s) == s.subrange(0, n),
        blank(s, n, s.len() as int),
        n > 0 ==> !is_white_space(s[n - 1]),
    decreases s.len(),
{
    if s.len() > 0 && is_white_space(s.last()) {
        let rest = s.drop_last();
        let n = lemma_trim_end(rest);
        assert(rest.subrange(0, n) =~= s.subrange(0, n));
        assert forall|k: int| n <= k < s.len() implies is_white_space(#[trigger] s[k]) by {
            if k < rest.len() {
                assert(rest[k] == s[k]);
            }
        }
        n
    } else {
        assert(s.subrange(0, s.len() as int) =~= s);
        s.len() as int
    }
}

/// A zero-terminated string ends before its first zero, or with the bytes.
pub proof fn law_first_nul(b: Seq<u8>)
    ensures
        0 <= first_nul(b) <= b.len(),
        first_nul(b) < b.len() ==> b[first_nul(b)] == 0,
        forall|i: int| 0 <= i < first_nul(b) ==> #[trigger] b[i] != 0,
    decreases b.len(),
{
    if b.len() > 0 && b[0] != 0 {
        let rest = b.drop_first();
        law_first_nul(rest);
        assert forall|i: int| 0 <= i < first_nul(b) implies #[trigger] b[i] != 0 by {
            if i > 0 {
                assert(rest[i - 1] == b[i]);
            }
        }
        if first_nul(b) < b.len() {
            assert(rest[first_nul(rest)] == b[first_nul(b)]);
        }
    }
}

/// The 16-bit units of a text: a character below 2 to the power 16 is one, another is a pair.
pub open spec fn units_of(s: Seq<char>) -> Seq<u16>
    decreases s.len(),
{
    if s.len() == 0 {
        Seq::empty()
    } else {
        let n = s[0] as int;
        (if n < 0x1_0000 {
            seq![n as u16]
        } else {
            seq![(0xD800 + (n - 0x1_0000) / 0x400) as u16, (0xDC00 + (n - 0x1_0000) % 0x400) as u16]
        }) + units_of(s.drop_first())
    }
}

/// What a character can be.
proof fn lemma_char(c: char)
    ensures
        0 <= c as int <= 0xD7FF || 0xE000 <= c as int <= 0x10FFFF,
{
}

/// Text in 16-bit units is read back.
pub proof fn law_utf16(s: Seq<char>)
    ensures
        utf16_text(units_of(s)) == s,
    decreases s.len(),
{
    let u = units_of(s);
    if s.len() > 0 {
        let c = s[0];
        let n = c as int;
        let rest = s.drop_first();
        lemma_char(c);
        law_utf16(rest);
        if n < 0x1_0000 {
            assert(u[0] == n);
            assert(!is_leading(u[0]) && !is_trailing(u[0]));
            assert(u.skip(1) =~= units_of(rest));
            assert(u[0] as u32 as char == c);
            assert(utf16_text(u) == seq![c] + rest);
        } else {
            let hi = (0xD800 + (n - 0x1_0000) / 0x400) as u16;
            let lo = (0xDC00 + (n - 0x1_0000) % 0x400) as u16;
            assert(u[0] == hi && u[1] == lo);
            assert(is_leading(u[0]) && is_trailing(u[1]));
            assert(u.skip(2) =~= units_of(rest));
            assert(0x1_0000 + (hi - 0xD800) * 0x400 + (lo - 0xDC00) == n);
            assert((0x1_0000 + (u[0] - 0xD800) * 0x400 + (u[1] - 0xDC00)) as u32 as char == c);
            assert(utf16_text(u) == seq![c] + rest);
        }
        assert(seq![c] + rest =~= s);
    } else {
        assert(u.len() == 0);
        assert(s =~= Seq::empty());
    }
}

/// The units of bytes are two bytes each, the more significant first; an odd byte at the end is left out.
pub proof fn law_units(b: Seq<u8>, i: int)
    requires
        0 <= 2 * i,
        2 * i + 1 < b.len(),
    ensures
        utf16_units(b).len() == b.len() / 2,
        utf16_units(b)[i] == b[2 * i] * 0x100 + b[2 * i + 1],
{
    reveal(be16);
}

/// Text without zeros behind it: only zeros were left out, and none is left.
pub proof fn law_trim_nuls(s: Seq<char>)
    ensures
        trim_nuls(s).len() <= s.len(),
        trim_nuls(s) == s.take(trim_nuls(s).len() as int),
        forall|k: int| trim_nuls(s).len() <= k < s.len() ==> #[trigger] s[k] == '\0',
        trim_nuls(s).len() > 0 ==> trim_nuls(s).last() != '\0',
    decreases s.len(),
{
    if s.len() > 0 && s.last() == '\0' {
        let rest = s.drop_last();
        law_trim_nuls(rest);
        let n = trim_nuls(rest).len() as int;
        assert(rest.take(n) =~= s.take(n));
        assert forall|k: int| n <= k < s.len() implies #[trigger] s[k] == '\0' by {
            if k < rest.len() {
                assert(rest[k] == s[k]);
            }
        }
    } else {
        assert(s.take(s.len() as int) =~= s);
    }
}

/// The texts of the first `n` rows with a separator between each two.
pub open spec fn joined<T>(rows: Seq<T>, n: int, sep: Seq<char>, f: spec_fn(T) -> Seq<char>) -> Seq<char>
    decreases n,
{
    if n <= 0 {
        Seq::empty()
    } else if n == 1 {
        f(rows[0])
    } else {
        joined(rows, n - 1, sep, f) + sep + f(rows[n - 1])
    }
}

/// A list is the texts of its rows, in order, with a separator between each two.
pub proof fn law_list<T>(acc: Seq<char>, rows: Seq<T>, sep: Seq<char>, f: spec_fn(T) -> Seq<char>)
    ensures
        list_from(acc, rows, 0, sep, f) == acc + joined(rows, rows.len() as int, sep, f),
{
    assert(acc + joined(rows, 0, sep, f) =~= acc);
    lemma_list(acc, rows, 0, sep, f);
}

proof fn lemma_list<T>(acc: Seq<char>, rows: Seq<T>, i: int, sep: Seq<char>, f: spec_fn(T) -> Seq<char>)
    requires
        0 <= i <= rows.len(),
    ensures
        list_from(acc + joined(rows, i, sep, f), rows, i, sep, f) == acc + joined(rows, rows.len() as int, sep, f),
    decreases rows.len() - i,
{
    if i < rows.len() {
        let a = acc + joined(rows, i, sep, f);
        let b = (if i == 0 { a } else { a + sep }) + f(rows[i]);
        assert(b =~= acc + joined(rows, i + 1, sep, f));
        lemma_list(acc, rows, i + 1, sep, f);
    }
}

/// The rows with a property are counted.
pub proof fn law_count<T>(rows: Seq<T>, n: int, f: spec_fn(T) -> bool)
    requires
        0 <= n <= rows.len(),
    ensures
        count(rows, n, f) == rows.take(n).filter(f).len(),
    decreases n,
{
    reveal(Seq::filter);
    if n > 0 {
        law_count(rows, n - 1, f);
        let s = rows.take(n);
        assert(s.drop_last() =~= rows.take(n - 1));
        assert(s.last() == rows[n - 1]);
    } else {
        assert(rows.take(0).len() == 0);
    }
}

/// What is counted of the dependencies of samples: those that lead, that depend on no other, that no other depends on,
/// and that have a redundant coding.
pub proof fn law_dependency_counts(rows: Seq<SdtpEntry>)
    ensures
        leading_count(rows, rows.len() as int) == rows.filter(|e: SdtpEntry| e.is_leading == 1 || e.is_leading == 3).len(),
        independent_count(rows, rows.len() as int) == rows.filter(|e: SdtpEntry| e.sample_depends_on == 2).len(),
        disposable_count(rows, rows.len() as int) == rows.filter(|e: SdtpEntry| e.sample_is_depended_on == 2).len(),
        redundant_count(rows, rows.len() as int) == rows.filter(|e: SdtpEntry| e.sample_has_redundancy == 1).len(),
{
    let n = rows.len() as int;
    assert(rows.take(n) =~= rows);
    law_count(rows, n, |e: SdtpEntry| e.is_leading == 1 || e.is_leading == 3);
    law_count(rows, n, |e: SdtpEntry| e.sample_depends_on == 2);
    law_count(rows, n, |e: SdtpEntry| e.sample_is_depended_on == 2);
    law_count(rows, n, |e: SdtpEntry| e.sample_has_redundancy == 1);
}

/// What is counted of padding: the samples with any, and those with each number of bits.
pub proof fn law_padding_counts(rows: Seq<u8>, k: u8)
    requires
        k < 8,
        forall|i: int| 0 <= i < rows.len() ==> #[trigger] rows[i] < 8,
    ensures
        padded_count(rows, rows.len() as int) == rows.filter(|p: u8| p != 0).len(),
        pad_count(rows, rows.len() as int, k) == rows.filter(|p: u8| p % 8 == k).len(),
{
    let n = rows.len() as int;
    assert(rows.take(n) =~= rows);
    law_count(rows, n, |p: u8| p != 0);
    law_count(rows, n, |p: u8| p % 8 == k);
}

/// The least and the greatest of rows are rows and bound all of them; the sum has each row once.
pub proof fn law_extremes(rows: Seq<u16>, n: int)
    requires
        0 < n <= rows.len(),
    ensures
        exists|i: int| 0 <= i < n && #[trigger] rows[i] == least(rows, n),
        exists|i: int| 0 <= i < n && #[trigger] rows[i] == greatest(rows, n),
        forall|i: int| 0 <= i < n ==> least(rows, n) <= #[trigger] rows[i] <= greatest(rows, n),
        total(rows, n) == total(rows, n - 1) + rows[n - 1],
        total(rows, 0) == 0,
    decreases n,
{
    if n > 1 {
        law_extremes(rows, n - 1);
        assert(rows[n - 1] == rows[n - 1]);
    } else {
        reveal_with_fuel(least, 2);
        reveal_with_fuel(greatest, 2);
        assert(rows[0] == least(rows, 1));
        assert(rows[0] == greatest(rows, 1));
    }
}

/// The greatest of bytes is one of them and bounds all of them.
pub proof fn law_greatest_byte(rows: Seq<u8>, n: int)
    requires
        0 < n <= rows.len(),
    ensures
        exists|i: int| 0 <= i < n && #[trigger] rows[i] == greatest_byte(rows, n),
        forall|i: int| 0 <= i < n ==> #[trigger] rows[i] <= greatest_byte(rows, n),
    decreases n,
{
    if n > 1 {
        law_greatest_byte(rows, n - 1);
        assert(rows[n - 1] == rows[n - 1]);
    } else {
        reveal_with_fuel(greatest_byte, 2);
        assert(rows[0] == greatest_byte(rows, 1));
    }
}

/// A unit that is half of a pair but stands alone is taken for a replacement character, and the text goes on behind it.
pub proof fn law_lone_half(u: u16, rest: Seq<u16>)
    requires
        0xD800 <= u < 0xE000,
        u < 0xDC00 ==> rest.len() == 0 || !(0xDC00 <= rest[0] < 0xE000),
    ensures
        utf16_text(seq![u] + rest) == seq!['\u{FFFD}'] + utf16_text(rest),
{
    let s = seq![u] + rest;
    assert(s.skip(1) =~= rest);
    if rest.len() > 0 {
        assert(s[1] == rest[0]);
    }
}

/// Which characters are white space.
pub proof fn law_white_space(c: char)
    ensures
        is_white_space(c) <==> set![
            '\t', '\n', '\u{B}', '\u{C}', '\r', ' ', '\u{85}', '\u{A0}', '\u{1680}', '\u{2000}', '\u{2001}', '\u{2002}',
            '\u{2003}', '\u{2004}', '\u{2005}', '\u{2006}', '\u{2007}', '\u{2008}', '\u{2009}', '\u{200A}', '\u{2028}',
            '\u{2029}', '\u{202F}', '\u{205F}', '\u{3000}'
        ].contains(c),
{
    lemma_char(c);
}

}
