//! Text: numbers in decimal and hexadecimal, and decoding of byte strings.
use vstd::prelude::*;
use vstd::utf8::{decode_utf8, valid_utf8};
use crate::bytes::{be16, read_u16};

verus! {

/// `String::push` appends one character.
pub assume_specification[ String::push ](s: &mut String, c: char)
    ensures
        final(s)@ == old(s)@.push(c),
;

/// The character of a decimal or lower-case hexadecimal digit.
pub open spec fn digit(d: int) -> char {
    if d < 10 { (48 + d) as u8 as char } else { (87 + d) as u8 as char }
}

/// The decimal digits of `n`, without leading zeros.
pub open spec fn dec(n: nat) -> Seq<char>
    decreases n,
{
    if n < 10 { seq![digit(n as int)] } else { dec(n / 10).push(digit((n % 10) as int)) }
}

/// The decimal digits of a signed number.
pub open spec fn sdec(n: int) -> Seq<char> {
    if n < 0 { seq!['-'] + dec((-n) as nat) } else { dec(n as nat) }
}

/// The two lower-case hexadecimal digits of a byte.
pub open spec fn hex2(b: u8) -> Seq<char> {
    seq![digit(b as int / 16), digit(b as int % 16)]
}

fn digit_char(d: u8) -> (c: char)
    requires
        d < 16,
    ensures
        c == digit(d as int),
{
    if d < 10 { (48 + d) as char } else { (87 + d) as char }
}

/// Appends `n` in decimal.
pub fn push_dec(out: &mut String, n: u64)
    ensures
        final(out)@ == old(out)@ + dec(n as nat),
    decreases n,
{
    if n >= 10 {
        push_dec(out, n / 10);
    }
    out.push(digit_char((n % 10) as u8));
    proof {
        assert(out@ =~= old(out)@ + dec(n as nat));
    }
}

/// Appends a signed `n` in decimal.
pub fn push_sdec(out: &mut String, n: i64)
    ensures
        final(out)@ == old(out)@ + sdec(n as int),
{
    if n < 0 {
        out.push('-');
        let m: u64 = if n == i64::MIN { 0x8000_0000_0000_0000 } else { (-n) as u64 };
        push_dec(out, m);
    } else {
        push_dec(out, n as u64);
    }
    proof {
        assert(out@ =~= old(out)@ + sdec(n as int));
    }
}

/// Appends the two hexadecimal digits of `b`.
pub fn push_hex2(out: &mut String, b: u8)
    ensures
        final(out)@ == old(out)@ + hex2(b),
{
    out.push(digit_char(b / 16));
    out.push(digit_char(b % 16));
    proof {
        assert(out@ =~= old(out)@ + hex2(b));
    }
}

/// `std::str::from_utf8` accepts exactly the well-formed byte strings and
/// decodes them.
#[verifier::external_body]
pub(crate) fn from_utf8(b: &[u8]) -> (r: Option<String>)
    ensures
        r is Some <==> valid_utf8(b@),
        r matches Some(s) ==> s@ == decode_utf8(b@),
{
    std::str::from_utf8(b).ok().map(|s| s.to_string())
}

/// What `String::from_utf8_lossy` makes of a byte string.
pub uninterp spec fn utf8_lossy(b: Seq<u8>) -> Seq<char>;

/// `String::from_utf8_lossy`: the result is a function of the bytes, and is the
/// plain decoding where they are well formed. What stands in for malformed
/// bytes is not stated.
#[verifier::external_body]
pub(crate) fn from_utf8_lossy(b: &[u8]) -> (r: String)
    ensures
        r@ == utf8_lossy(b@),
        valid_utf8(b@) ==> r@ == decode_utf8(b@),
{
    String::from_utf8_lossy(b).into_owned()
}

/// Whether a code unit is the first half of a surrogate pair.
pub open spec fn is_leading(u: u16) -> bool {
    0xD800 <= u < 0xDC00
}

/// Whether a code unit is the second half of a surrogate pair.
pub open spec fn is_trailing(u: u16) -> bool {
    0xDC00 <= u < 0xE000
}

/// The text of UTF-16 code units: a surrogate pair stands for one character, and a surrogate
/// without its other half gives U+FFFD.
pub open spec fn utf16_text(units: Seq<u16>) -> Seq<char>
    decreases units.len(),
{
    if units.len() == 0 {
        Seq::empty()
    } else if !is_leading(units[0]) && !is_trailing(units[0]) {
        seq![units[0] as u32 as char] + utf16_text(units.skip(1))
    } else if is_leading(units[0]) && units.len() > 1 && is_trailing(units[1]) {
        let n = 0x1_0000 + (units[0] - 0xD800) * 0x400 + (units[1] - 0xDC00);
        seq![n as u32 as char] + utf16_text(units.skip(2))
    } else {
        seq!['\u{FFFD}'] + utf16_text(units.skip(1))
    }
}

/// `String::from_utf16_lossy` decodes UTF-16 and puts U+FFFD in the place of each surrogate that
/// has no other half.
#[verifier::external_body]
pub(crate) fn from_utf16_lossy(units: &[u16]) -> (r: String)
    ensures
        r@ == utf16_text(units@),
{
    String::from_utf16_lossy(units)
}

/// Whether a character has the Unicode property White_Space.
pub open spec fn is_white_space(c: char) -> bool {
    let n = c as u32;
    0x9 <= n <= 0xD || n == 0x20 || n == 0x85 || n == 0xA0 || n == 0x1680 || 0x2000 <= n <= 0x200A || n
        == 0x2028 || n == 0x2029 || n == 0x202F || n == 0x205F || n == 0x3000
}

/// `s` without its leading white space.
pub open spec fn trim_start(s: Seq<char>) -> Seq<char>
    decreases s.len(),
{
    if s.len() > 0 && is_white_space(s[0]) { trim_start(s.drop_first()) } else { s }
}

/// `s` without its trailing white space.
pub open spec fn trim_end(s: Seq<char>) -> Seq<char>
    decreases s.len(),
{
    if s.len() > 0 && is_white_space(s.last()) { trim_end(s.drop_last()) } else { s }
}

/// `s` without leading and trailing white space.
pub open spec fn trimmed(s: Seq<char>) -> Seq<char> {
    trim_end(trim_start(s))
}

/// Whether a character is white space.
fn white(c: char) -> (r: bool)
    ensures
        r == is_white_space(c),
{
    let n: u32 = c as u32;
    (0x9 <= n && n <= 0xD) || n == 0x20 || n == 0x85 || n == 0xA0 || n == 0x1680 || (0x2000 <= n && n <= 0x200A) || n
        == 0x2028 || n == 0x2029 || n == 0x202F || n == 0x205F || n == 0x3000
}

/// Takes leading and trailing white space away.
pub(crate) fn trim(s: &str) -> (r: String)
    ensures
        r@ == trimmed(s@),
{
    let n: usize = s.unicode_len();
    let mut a: usize = 0;
    proof { assert(s@.subrange(0, n as int) =~= s@); }
    while a < n && white(s.get_char(a))
        invariant
            a <= n == s@.len(),
            trim_start(s@) == trim_start(s@.subrange(a as int, n as int)),
        decreases n - a,
    {
        proof { assert(s@.subrange(a as int, n as int).drop_first() =~= s@.subrange(a + 1, n as int)); }
        a += 1;
    }
    let mut b: usize = n;
    while b > a && white(s.get_char(b - 1))
        invariant
            a <= b <= n == s@.len(),
            trimmed(s@) == trim_end(s@.subrange(a as int, b as int)),
        decreases b,
    {
        proof { assert(s@.subrange(a as int, b as int).drop_last() =~= s@.subrange(a as int, b - 1)); }
        b -= 1;
    }
    s.substring_char(a, b).to_string()
}

/// `s` without its trailing NULs.
pub open spec fn trim_nuls(s: Seq<char>) -> Seq<char>
    decreases s.len(),
{
    if s.len() > 0 && s.last() == '\0' { trim_nuls(s.drop_last()) } else { s }
}

/// Takes trailing NULs away.
pub(crate) fn trim_end_nuls(s: &str) -> (r: String)
    ensures
        r@ == trim_nuls(s@),
{
    let mut n: usize = s.unicode_len();
    proof { assert(s@.subrange(0, n as int) =~= s@); }
    while n > 0 && s.get_char(n - 1) == '\0'
        invariant
            n <= s@.len(),
            trim_nuls(s@) == trim_nuls(s@.subrange(0, n as int)),
        decreases n,
    {
        proof { assert(s@.subrange(0, n as int).drop_last() =~= s@.subrange(0, n - 1)); }
        n -= 1;
    }
    s.substring_char(0, n).to_string()
}

/// The index of the first zero byte, or the length where there is none.
pub open spec fn first_nul(b: Seq<u8>) -> int
    decreases b.len(),
{
    if b.len() == 0 || b[0] == 0 { 0 } else { 1 + first_nul(b.drop_first()) }
}

/// `first_nul` is in range, the byte there is zero, and none before it is.
pub proof fn lemma_first_nul(b: Seq<u8>)
    ensures
        0 <= first_nul(b) <= b.len(),
        first_nul(b) < b.len() ==> b[first_nul(b)] == 0,
        forall|i: int| 0 <= i < first_nul(b) ==> b[i] != 0,
    decreases b.len(),
{
    if b.len() > 0 && b[0] != 0 {
        let t = b.drop_first();
        lemma_first_nul(t);
        assert forall|i: int| 0 <= i < first_nul(b) implies b[i] != 0 by {
            if i > 0 {
                assert(b[i] == t[i - 1]);
            }
        }
    }
}

/// Any index with those properties is `first_nul`.
pub proof fn lemma_first_nul_is(b: Seq<u8>, n: int)
    requires
        0 <= n <= b.len(),
        n < b.len() ==> b[n] == 0,
        forall|i: int| 0 <= i < n ==> b[i] != 0,
    ensures
        first_nul(b) == n,
{
    lemma_first_nul(b);
    let m = first_nul(b);
    if m < n {
        assert(b[m] != 0);
    } else if n < m {
        assert(b[n] != 0);
    }
}

/// The index of the first zero byte, or the length where there is none.
pub fn find_nul(b: &[u8]) -> (n: usize)
    ensures
        n == first_nul(b@),
        n <= b@.len(),
{
    let mut n: usize = 0;
    while n < b.len() && b[n] != 0
        invariant
            n <= b@.len(),
            forall|i: int| 0 <= i < n ==> b@[i] != 0,
        decreases b@.len() - n,
    {
        n += 1;
    }
    proof { lemma_first_nul_is(b@, n as int); }
    n
}

/// The big-endian 16-bit code units of a byte string; an odd last byte is left out.
pub open spec fn utf16_units(b: Seq<u8>) -> Seq<u16> {
    Seq::new(b.len() / 2, |i: int| be16(b, 2 * i))
}

/// Text in UTF-16 with a byte order mark, or else in UTF-8 up to the first NUL,
/// without the white space around it.
pub open spec fn decoded_text(b: Seq<u8>) -> Seq<char> {
    if b.len() >= 2 && b[0] == 0xFE && b[1] == 0xFF {
        trimmed(trim_nuls(utf16_text(utf16_units(b.subrange(2, b.len() as int)))))
    } else {
        trimmed(utf8_lossy(b.subrange(0, first_nul(b))))
    }
}

/// Decodes text in UTF-16 with a byte order mark, or else in UTF-8 up to the first NUL.
pub fn decode_utf8_or_utf16(buf: &[u8]) -> (s: String)
    ensures
        s@ == decoded_text(buf@),
{
    if buf.len() >= 2 && buf[0] == 0xFE && buf[1] == 0xFF {
        let rest = &buf[2..buf.len()];
        let len: usize = rest.len();
        let n: usize = len / 2;
        let mut units: Vec<u16> = Vec::new();
        let mut i: usize = 0;
        while i < n
            invariant
                len == rest@.len(),
                n == len / 2,
                i <= n,
                units@ =~= Seq::new(i as nat, |k: int| be16(rest@, 2 * k)),
            decreases n - i,
        {
            units.push(read_u16(rest, 2 * i));
            i += 1;
        }
        proof { assert(units@ =~= utf16_units(rest@)); }
        let s = from_utf16_lossy(&units);
        let s = trim_end_nuls(s.as_str());
        return trim(s.as_str());
    }
    let end: usize = find_nul(buf);
    let s = from_utf8_lossy(&buf[0..end]);
    trim(s.as_str())
}

/// Whether a character is a control code.
pub open spec fn is_control(c: char) -> bool {
    (c as u32) < 0x20 || 0x7F <= (c as u32) <= 0x9F
}

/// How a four-character code is shown: as text where it is well-formed UTF-8 without
/// control codes, else as eight hexadecimal digits.
pub open spec fn token(a: Seq<u8>) -> Seq<char> {
    if valid_utf8(a) && (forall|i: int| 0 <= i < decode_utf8(a).len() ==> !is_control(#[trigger] decode_utf8(a)[i])) {
        decode_utf8(a)
    } else {
        hex2(a[0]) + hex2(a[1]) + hex2(a[2]) + hex2(a[3])
    }
}

/// How a four-character code is shown.
pub fn fourcc_token(a: &[u8; 4]) -> (s: String)
    ensures
        s@ == token(a@),
{
    let text = from_utf8(a.as_slice());
    if let Some(s) = text {
        let n: usize = s.as_str().unicode_len();
        let mut clean = true;
        let mut i: usize = 0;
        while i < n && clean
            invariant
                n == s@.len(),
                i <= n,
                clean ==> forall|k: int| 0 <= k < i ==> !is_control(#[trigger] s@[k]),
                !clean ==> exists|k: int| 0 <= k < n && is_control(#[trigger] s@[k]),
            decreases n - i + (if clean { 1int } else { 0int }),
        {
            let c = s.as_str().get_char(i);
            let v: u32 = c as u32;
            if v < 0x20 || (0x7F <= v && v <= 0x9F) {
                assert(is_control(s@[i as int]));
                clean = false;
            } else {
                i += 1;
            }
        }
        if clean {
            return s;
        }
    }
    let mut out = String::new();
    push_hex2(&mut out, a[0]);
    push_hex2(&mut out, a[1]);
    push_hex2(&mut out, a[2]);
    push_hex2(&mut out, a[3]);
    proof {
        assert(out@ =~= hex2(a@[0]) + hex2(a@[1]) + hex2(a@[2]) + hex2(a@[3]));
    }
    out
}

/// The eight lower-case hexadecimal digits of a number.
pub open spec fn hex8(n: u32) -> Seq<char> {
    hex2((n / 0x100_0000) as u8) + hex2((n / 0x1_0000 % 0x100) as u8) + hex2((n / 0x100 % 0x100) as u8) + hex2(
        (n % 0x100) as u8,
    )
}

/// Appends the eight hexadecimal digits of `n`.
pub fn push_hex8(out: &mut String, n: u32)
    ensures
        final(out)@ == old(out)@ + hex8(n),
{
    push_hex2(out, (n / 0x100_0000) as u8);
    push_hex2(out, (n / 0x1_0000 % 0x100) as u8);
    push_hex2(out, (n / 0x100 % 0x100) as u8);
    push_hex2(out, (n % 0x100) as u8);
    proof { assert(out@ =~= old(out)@ + hex8(n)); }
}

/// The hexadecimal digits of the bytes from the `i`th on, behind `acc`.
pub open spec fn hex_from(acc: Seq<char>, b: Seq<u8>, i: int) -> Seq<char>
    decreases b.len() - i,
{
    if i >= b.len() { acc } else { hex_from(acc + hex2(b[i]), b, i + 1) }
}

/// Appends the hexadecimal digits of the bytes.
pub fn push_hex(out: &mut String, b: &[u8])
    ensures
        final(out)@ == hex_from(old(out)@, b@, 0),
{
    let mut i: usize = 0;
    while i < b.len()
        invariant
            i <= b@.len(),
            hex_from(old(out)@, b@, 0) == hex_from(out@, b@, i as int),
        decreases b@.len() - i,
    {
        push_hex2(out, b[i]);
        i += 1;
    }
}

/// A four-character code as text where it is UTF-8, else four question marks.
pub open spec fn code_or_marks(a: Seq<u8>) -> Seq<char> {
    if valid_utf8(a) { decode_utf8(a) } else { "????"@ }
}

/// A four-character code as text where it is UTF-8, else four question marks.
pub fn code_or_marks_string(a: &[u8; 4]) -> (s: String)
    ensures
        s@ == code_or_marks(a@),
{
    match from_utf8(a.as_slice()) {
        Some(s) => s,
        None => String::from_str("????"),
    }
}

/// The texts of the rows from the `i`th on, with `sep` before each but the first, behind `acc`.
pub open spec fn list_from<T>(acc: Seq<char>, rows: Seq<T>, i: int, sep: Seq<char>, f: spec_fn(T) -> Seq<char>) -> Seq<char>
    decreases rows.len() - i,
{
    if i >= rows.len() {
        acc
    } else {
        list_from((if i == 0 { acc } else { acc + sep }) + f(rows[i]), rows, i + 1, sep, f)
    }
}

/// What the rows from the `i`th on make of `acc`, one after the other.
pub open spec fn text_from<T>(acc: Seq<char>, rows: Seq<T>, i: int, f: spec_fn(Seq<char>, T) -> Seq<char>) -> Seq<char>
    decreases rows.len() - i,
{
    if i >= rows.len() { acc } else { text_from(f(acc, rows[i]), rows, i + 1, f) }
}

/// Numbers in decimal with `sep` between them, behind `acc`.
pub open spec fn numbers_from(acc: Seq<char>, rows: Seq<u32>, i: int, sep: Seq<char>) -> Seq<char> {
    list_from(acc, rows, i, sep, |x: u32| dec(x as nat))
}

/// Appends numbers in decimal with `sep` between them.
pub fn push_numbers(out: &mut String, rows: &[u32], sep: &str)
    ensures
        final(out)@ == numbers_from(old(out)@, rows@, 0, sep@),
{
    let mut i: usize = 0;
    while i < rows.len()
        invariant
            i <= rows@.len(),
            numbers_from(old(out)@, rows@, 0, sep@) == numbers_from(out@, rows@, i as int, sep@),
        decreases rows@.len() - i,
    {
        if i != 0 {
            out.append(sep);
        }
        push_dec(out, rows[i] as u64);
        i += 1;
    }
}

/// Bytes in decimal with `sep` between them, behind `acc`.
pub open spec fn bytes_from(acc: Seq<char>, rows: Seq<u8>, i: int, sep: Seq<char>) -> Seq<char> {
    list_from(acc, rows, i, sep, |x: u8| dec(x as nat))
}

/// Appends bytes in decimal with `sep` between them.
pub fn push_bytes_dec(out: &mut String, rows: &[u8], sep: &str)
    ensures
        final(out)@ == bytes_from(old(out)@, rows@, 0, sep@),
{
    let mut i: usize = 0;
    while i < rows.len()
        invariant
            i <= rows@.len(),
            bytes_from(old(out)@, rows@, 0, sep@) == bytes_from(out@, rows@, i as int, sep@),
        decreases rows@.len() - i,
    {
        if i != 0 {
            out.append(sep);
        }
        push_dec(out, rows[i] as u64);
        i += 1;
    }
}

/// Long numbers in decimal with `sep` between them, behind `acc`.
pub open spec fn longs_from(acc: Seq<char>, rows: Seq<u64>, i: int, sep: Seq<char>) -> Seq<char> {
    list_from(acc, rows, i, sep, |x: u64| dec(x as nat))
}

/// Appends long numbers in decimal with `sep` between them.
pub fn push_longs(out: &mut String, rows: &[u64], sep: &str)
    ensures
        final(out)@ == longs_from(old(out)@, rows@, 0, sep@),
{
    let mut i: usize = 0;
    while i < rows.len()
        invariant
            i <= rows@.len(),
            longs_from(old(out)@, rows@, 0, sep@) == longs_from(out@, rows@, i as int, sep@),
        decreases rows@.len() - i,
    {
        if i != 0 {
            out.append(sep);
        }
        push_dec(out, rows[i]);
        i += 1;
    }
}

/// Four-character codes with `sep` between them, behind `acc`.
pub open spec fn tokens_from(acc: Seq<char>, rows: Seq<[u8; 4]>, i: int, sep: Seq<char>) -> Seq<char> {
    list_from(acc, rows, i, sep, |x: [u8; 4]| token(x@))
}

/// Appends four-character codes with `sep` between them.
pub fn push_tokens(out: &mut String, rows: &Vec<[u8; 4]>, sep: &str)
    ensures
        final(out)@ == tokens_from(old(out)@, rows@, 0, sep@),
{
    let mut i: usize = 0;
    while i < rows.len()
        invariant
            i <= rows@.len(),
            tokens_from(old(out)@, rows@, 0, sep@) == tokens_from(out@, rows@, i as int, sep@),
        decreases rows@.len() - i,
    {
        if i != 0 {
            out.append(sep);
        }
        let s = fourcc_token(&rows[i]);
        out.append(s.as_str());
        i += 1;
    }
}

/// A name with a number at its end.
pub open spec fn numbered(name: Seq<char>, i: int) -> Seq<char> {
    name + dec(i as nat)
}

/// A name with a number at its end.
pub fn numbered_string(name: &str, i: usize) -> (s: String)
    ensures
        s@ == numbered(name@, i as int),
{
    let mut s = name.to_owned();
    push_dec(&mut s, i as u64);
    s
}

/// A number in decimal.
pub fn dec_string(n: u64) -> (s: String)
    ensures
        s@ == dec(n as nat),
{
    let mut s = String::new();
    push_dec(&mut s, n);
    proof { assert(s@ =~= dec(n as nat)); }
    s
}

/// A signed number in decimal.
pub fn sdec_string(n: i64) -> (s: String)
    ensures
        s@ == sdec(n as int),
{
    let mut s = String::new();
    push_sdec(&mut s, n);
    proof { assert(s@ =~= sdec(n as int)); }
    s
}

/// Whether a string is empty.
pub(crate) fn is_empty(s: &String) -> (r: bool)
    ensures
        r == (s@.len() == 0),
{
    s.as_str().unicode_len() == 0
}

}
