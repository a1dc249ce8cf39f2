//! Event messages: timed events that travel with media segments.
//!
//! Two versions of the box exist, and the order of their fields differs. Version 0 has its two
//! strings first and a start that is relative to the segment; version 1 has its numbers first and
//! a start on the timeline of the presentation.
use vstd::prelude::*;
use vstd::utf8::{decode_utf8, encode_utf8, valid_utf8};
use crate::boxes::{boxed, header_at, law_boxed_header, wrap_box};
use crate::bytes::{
    be32, be64, copy_bytes, enc32, enc64, law_enc32_be32, law_enc64_be64, push_bytes, push_u32,
    push_u64, read_u32, read_u64,
};
use crate::error::{seen, Detail, Error, Result};
use crate::kinds::EMSG;
use crate::text::{find_nul, first_nul, from_utf8, lemma_first_nul, lemma_first_nul_is};

verus! {

/// The duration of an event whose duration is not known.
pub const EMSG_UNKNOWN_DURATION: u32 = 0xFFFF_FFFF;

/// When an event starts.
#[derive(Clone, Copy, Debug, PartialEq, Eq)]
pub enum EmsgTime {
    /// So long after the segment starts (version 0).
    Delta(u32),
    /// At this time of the presentation (version 1).
    Absolute(u64),
}

/// An event message. Its version follows from how its start is given.
#[derive(Clone, Debug, PartialEq, Eq)]
pub struct EmsgBox {
    pub scheme_id_uri: String,
    pub value: String,
    /// How many units of time there are in a second.
    pub timescale: u32,
    pub presentation: EmsgTime,
    pub event_duration: u32,
    pub id: u32,
    /// What the scheme makes of it; it goes on to the end of the box.
    pub message_data: Vec<u8>,
}

/// The model of `EmsgBox`.
pub ghost struct EmsgModel {
    pub scheme_id_uri: Seq<char>,
    pub value: Seq<char>,
    pub timescale: u32,
    pub presentation: EmsgTime,
    pub event_duration: u32,
    pub id: u32,
    pub message_data: Seq<u8>,
}

impl View for EmsgBox {
    type V = EmsgModel;

    open spec fn view(&self) -> EmsgModel {
        EmsgModel {
            scheme_id_uri: self.scheme_id_uri@,
            value: self.value@,
            timescale: self.timescale,
            presentation: self.presentation,
            event_duration: self.event_duration,
            id: self.id,
            message_data: self.message_data@,
        }
    }
}

impl EmsgBox {
    /// The version of the box.
    pub fn version(&self) -> (v: u8)
        ensures
            v == (match self@.presentation {
                EmsgTime::Delta(_) => 0u8,
                EmsgTime::Absolute(_) => 1u8,
            }),
    {
        match self.presentation {
            EmsgTime::Delta(_) => 0,
            EmsgTime::Absolute(_) => 1,
        }
    }

    /// The start on the timeline of the presentation, where it is given so.
    pub fn presentation_time(&self) -> (r: Option<u64>)
        ensures
            r == (match self@.presentation {
                EmsgTime::Delta(_) => None,
                EmsgTime::Absolute(t) => Some(t),
            }),
    {
        match self.presentation {
            EmsgTime::Absolute(t) => Some(t),
            EmsgTime::Delta(_) => None,
        }
    }

    /// The start relative to the segment, where it is given so.
    pub fn presentation_time_delta(&self) -> (r: Option<u32>)
        ensures
            r == (match self@.presentation {
                EmsgTime::Delta(d) => Some(d),
                EmsgTime::Absolute(_) => None,
            }),
    {
        match self.presentation {
            EmsgTime::Delta(d) => Some(d),
            EmsgTime::Absolute(_) => None,
        }
    }

    /// Whether the duration is not known.
    pub fn event_duration_unknown(&self) -> (r: bool)
        ensures
            r == (self@.event_duration == EMSG_UNKNOWN_DURATION),
    {
        self.event_duration == EMSG_UNKNOWN_DURATION
    }
}

/// The zero-terminated string at byte `p`, and where what follows it starts.
pub open spec fn cstring_at(b: Seq<u8>, p: int, what: &'static str) -> Result<(Seq<char>, int)> {
    let rest = b.subrange(p, b.len() as int);
    let n = first_nul(rest);
    if p > b.len() {
        Err(Error::InvalidData(Detail::EmsgTruncatedBefore(what)))
    } else if n == rest.len() {
        Err(Error::InvalidData(Detail::EmsgUnterminated(what)))
    } else if !valid_utf8(rest.subrange(0, n)) {
        Err(Error::InvalidData(Detail::EmsgNotUtf8(what)))
    } else {
        Ok((decode_utf8(rest.subrange(0, n)), p + n + 1))
    }
}

/// Reads the zero-terminated string at byte `p`.
fn read_cstring(b: &[u8], p: usize, what: &'static str) -> (r: Result<(String, usize)>)
    ensures
        match r {
            Ok((s, next)) => {
                &&& cstring_at(b@, p as int, what) == Ok::<(Seq<char>, int), Error>((s@, next as int))
                &&& p < next <= b@.len()
            },
            Err(e) => cstring_at(b@, p as int, what) == Err::<(Seq<char>, int), Error>(e),
        },
{
    if p > b.len() {
        return Err(Error::InvalidData(Detail::EmsgTruncatedBefore(what)));
    }
    let rest = &b[p..b.len()];
    let n: usize = find_nul(rest);
    if n == rest.len() {
        return Err(Error::InvalidData(Detail::EmsgUnterminated(what)));
    }
    match from_utf8(&rest[0..n]) {
        Some(s) => Ok((s, p + n + 1)),
        None => Err(Error::InvalidData(Detail::EmsgNotUtf8(what))),
    }
}

/// The number at byte `p`.
pub open spec fn word_at(b: Seq<u8>, p: int, what: &'static str) -> Result<u32> {
    if b.len() < p + 4 { Err(Error::InvalidData(Detail::EmsgTruncated(what))) } else { Ok(be32(b, p)) }
}

/// The long number at byte `p`.
pub open spec fn long_at(b: Seq<u8>, p: int, what: &'static str) -> Result<u64> {
    if b.len() < p + 8 { Err(Error::InvalidData(Detail::EmsgTruncated(what))) } else { Ok(be64(b, p)) }
}

fn read_word(b: &[u8], p: usize, what: &'static str) -> (r: Result<u32>)
    requires
        p <= b@.len(),
    ensures
        r == word_at(b@, p as int, what),
{
    if b.len() - p < 4 { Err(Error::InvalidData(Detail::EmsgTruncated(what))) } else { Ok(read_u32(b, p)) }
}

fn read_long(b: &[u8], p: usize, what: &'static str) -> (r: Result<u64>)
    requires
        p <= b@.len(),
    ensures
        r == long_at(b@, p as int, what),
{
    if b.len() - p < 8 { Err(Error::InvalidData(Detail::EmsgTruncated(what))) } else { Ok(read_u64(b, p)) }
}

/// The two strings at byte `p`, and where what follows them starts.
pub open spec fn strings_at(b: Seq<u8>, p: int) -> Result<(Seq<char>, Seq<char>, int)> {
    match cstring_at(b, p, "scheme_id_uri") {
        Err(e) => Err(e),
        Ok((scheme, q)) => match cstring_at(b, q, "value") {
            Err(e) => Err(e),
            Ok((value, end)) => Ok((scheme, value, end)),
        },
    }
}

/// The content of a payload of version 0.
pub open spec fn emsg_v0(b: Seq<u8>) -> Result<EmsgModel> {
    match strings_at(b, 4) {
        Err(e) => Err(e),
        Ok((scheme_id_uri, value, p)) => match (
            word_at(b, p, "timescale"),
            word_at(b, p + 4, "presentation_time_delta"),
            word_at(b, p + 8, "event_duration"),
            word_at(b, p + 12, "id"),
        ) {
            (Err(e), _, _, _) => Err(e),
            (_, Err(e), _, _) => Err(e),
            (_, _, Err(e), _) => Err(e),
            (_, _, _, Err(e)) => Err(e),
            (Ok(timescale), Ok(delta), Ok(event_duration), Ok(id)) => Ok(
                EmsgModel {
                    scheme_id_uri,
                    value,
                    timescale,
                    presentation: EmsgTime::Delta(delta),
                    event_duration,
                    id,
                    message_data: b.subrange(p + 16, b.len() as int),
                },
            ),
        },
    }
}

/// The content of a payload of version 1.
pub open spec fn emsg_v1(b: Seq<u8>) -> Result<EmsgModel> {
    match (
        word_at(b, 4, "timescale"),
        long_at(b, 8, "presentation_time"),
        word_at(b, 16, "event_duration"),
        word_at(b, 20, "id"),
        strings_at(b, 24),
    ) {
        (Err(e), _, _, _, _) => Err(e),
        (_, Err(e), _, _, _) => Err(e),
        (_, _, Err(e), _, _) => Err(e),
        (_, _, _, Err(e), _) => Err(e),
        (_, _, _, _, Err(e)) => Err(e),
        (Ok(timescale), Ok(time), Ok(event_duration), Ok(id), Ok((scheme_id_uri, value, p))) => Ok(
            EmsgModel {
                scheme_id_uri,
                value,
                timescale,
                presentation: EmsgTime::Absolute(time),
                event_duration,
                id,
                message_data: b.subrange(p, b.len() as int),
            },
        ),
    }
}

/// The content of an `emsg` payload. Flags are not looked at; other versions than 0 and 1 have no
/// known order of fields.
pub open spec fn emsg_of(b: Seq<u8>) -> Result<EmsgModel> {
    if b.len() < 4 {
        Err(Error::invalid("MP4 emsg: missing FullBox header"))
    } else if b[0] == 0 {
        emsg_v0(b)
    } else if b[0] == 1 {
        emsg_v1(b)
    } else {
        Err(Error::InvalidData(Detail::EmsgVersion(b[0])))
    }
}

/// Parses the payload of an `emsg` box.
pub fn parse_emsg_box(body: &[u8]) -> (r: Result<EmsgBox>)
    ensures
        seen(r) == emsg_of(body@),
{
    if body.len() < 4 {
        return Err(Error::invalid("MP4 emsg: missing FullBox header"));
    }
    if body[0] == 0 {
        let (scheme_id_uri, p) = read_cstring(body, 4, "scheme_id_uri")?;
        let (value, p) = read_cstring(body, p, "value")?;
        let timescale: u32 = read_word(body, p, "timescale")?;
        let delta: u32 = read_word(body, p + 4, "presentation_time_delta")?;
        let event_duration: u32 = read_word(body, p + 8, "event_duration")?;
        let id: u32 = read_word(body, p + 12, "id")?;
        Ok(
            EmsgBox {
                scheme_id_uri,
                value,
                timescale,
                presentation: EmsgTime::Delta(delta),
                event_duration,
                id,
                message_data: copy_bytes(&body[p + 16..body.len()]),
            },
        )
    } else if body[0] == 1 {
        let timescale: u32 = read_word(body, 4, "timescale")?;
        let time: u64 = read_long(body, 8, "presentation_time")?;
        let event_duration: u32 = read_word(body, 16, "event_duration")?;
        let id: u32 = read_word(body, 20, "id")?;
        let (scheme_id_uri, p) = read_cstring(body, 24, "scheme_id_uri")?;
        let (value, p) = read_cstring(body, p, "value")?;
        Ok(
            EmsgBox {
                scheme_id_uri,
                value,
                timescale,
                presentation: EmsgTime::Absolute(time),
                event_duration,
                id,
                message_data: copy_bytes(&body[p..body.len()]),
            },
        )
    } else {
        Err(Error::InvalidData(Detail::EmsgVersion(body[0])))
    }
}

/// Whether a string has a zero byte, which would end it early.
pub open spec fn has_nul(s: Seq<char>) -> bool {
    encode_utf8(s).contains(0u8)
}

/// The two strings, each with its terminator.
pub open spec fn enc_strings(e: EmsgModel) -> Seq<u8> {
    encode_utf8(e.scheme_id_uri).push(0u8) + encode_utf8(e.value).push(0u8)
}

/// The payload of an event message; its flags are 0.
pub open spec fn emsg_payload(e: EmsgModel) -> Seq<u8> {
    match e.presentation {
        EmsgTime::Delta(delta) => enc32(0) + enc_strings(e) + (enc32(e.timescale) + enc32(delta) + enc32(
            e.event_duration,
        ) + enc32(e.id)) + e.message_data,
        EmsgTime::Absolute(time) => enc32(0x100_0000) + (enc32(e.timescale) + enc64(time) + enc32(e.event_duration)
            + enc32(e.id)) + enc_strings(e) + e.message_data,
    }
}

/// The box of an event message, or why it cannot be written: a string has a zero byte, or the box is
/// too large for its header.
pub open spec fn emsg_box(e: EmsgModel) -> Result<Seq<u8>> {
    if has_nul(e.scheme_id_uri) {
        Err(Error::InvalidData(Detail::EmsgInteriorNul("scheme_id_uri")))
    } else if has_nul(e.value) {
        Err(Error::InvalidData(Detail::EmsgInteriorNul("value")))
    } else if 8 + emsg_payload(e).len() > u32::MAX {
        Err(Error::invalid("MP4 emsg build: box size exceeds u32"))
    } else {
        Ok(boxed(EMSG, emsg_payload(e)))
    }
}

/// Whether a string has a zero byte.
fn contains_nul(s: &String) -> (r: bool)
    ensures
        r == has_nul(s@),
{
    let b = s.as_str().as_bytes();
    let n: usize = find_nul(b);
    proof {
        lemma_first_nul(b@);
        if n < b@.len() {
            assert(b@[n as int] == 0);
            assert(b@.contains(0u8));
        } else if b@.contains(0u8) {
            let k = b@.index_of(0u8);
            assert(b@[k] != 0);
        }
    }
    n < b.len()
}

/// Appends a string and its terminator.
fn push_cstring(out: &mut Vec<u8>, s: &String)
    ensures
        final(out)@ == old(out)@ + encode_utf8(s@).push(0u8),
{
    push_bytes(out, s.as_str().as_bytes());
    out.push(0);
    proof { assert(out@ =~= old(out)@ + encode_utf8(s@).push(0u8)); }
}

/// Builds the box of an event message.
pub fn build_emsg_box(e: &EmsgBox) -> (r: Result<Vec<u8>>)
    ensures
        seen(r) == emsg_box(e@),
{
    if contains_nul(&e.scheme_id_uri) {
        return Err(Error::InvalidData(Detail::EmsgInteriorNul("scheme_id_uri")));
    }
    if contains_nul(&e.value) {
        return Err(Error::InvalidData(Detail::EmsgInteriorNul("value")));
    }
    let mut body: Vec<u8> = Vec::new();
    match e.presentation {
        EmsgTime::Delta(delta) => {
            push_u32(&mut body, 0);
            push_cstring(&mut body, &e.scheme_id_uri);
            push_cstring(&mut body, &e.value);
            push_u32(&mut body, e.timescale);
            push_u32(&mut body, delta);
            push_u32(&mut body, e.event_duration);
            push_u32(&mut body, e.id);
        },
        EmsgTime::Absolute(time) => {
            push_u32(&mut body, 0x100_0000);
            push_u32(&mut body, e.timescale);
            push_u64(&mut body, time);
            push_u32(&mut body, e.event_duration);
            push_u32(&mut body, e.id);
            push_cstring(&mut body, &e.scheme_id_uri);
            push_cstring(&mut body, &e.value);
        },
    }
    push_bytes(&mut body, e.message_data.as_slice());
    proof { assert(body@ =~= emsg_payload(e@)); }
    if body.len() as u64 > 0xFFFF_FFFF - 8 {
        return Err(Error::invalid("MP4 emsg build: box size exceeds u32"));
    }
    Ok(wrap_box(EMSG, body.as_slice()))
}

/// A string that was written at byte `p` is read back.
proof fn lemma_cstring_back(b: Seq<u8>, p: int, s: Seq<char>, what: &'static str)
    requires
        0 <= p,
        p + encode_utf8(s).len() + 1 <= b.len(),
        b.subrange(p, p + encode_utf8(s).len() + 1) == encode_utf8(s).push(0u8),
        !has_nul(s),
    ensures
        cstring_at(b, p, what) == Ok::<(Seq<char>, int), Error>((s, p + encode_utf8(s).len() + 1)),
{
    broadcast use {vstd::utf8::encode_utf8_valid_utf8, vstd::utf8::encode_utf8_decode_utf8};

    let x = encode_utf8(s);
    let w = b.subrange(p, p + x.len() + 1);
    let rest = b.subrange(p, b.len() as int);
    assert(rest[x.len() as int] == w[x.len() as int]);
    assert forall|i: int| 0 <= i < x.len() implies rest[i] != 0 by {
        assert(rest[i] == w[i]);
        assert(w[i] == x[i]);
        if x[i] == 0 {
            assert(x.contains(0u8));
        }
    }
    lemma_first_nul_is(rest, x.len() as int);
    assert(rest.subrange(0, x.len() as int) =~= x) by {
        assert forall|i: int| 0 <= i < x.len() implies rest.subrange(0, x.len() as int)[i] == x[i] by {
            assert(rest[i] == w[i]);
            assert(w[i] == x[i]);
        }
    }
}

/// The strings that were written at byte `p` are read back.
proof fn lemma_strings_back(b: Seq<u8>, p: int, e: EmsgModel)
    requires
        0 <= p,
        p + enc_strings(e).len() <= b.len(),
        b.subrange(p, p + enc_strings(e).len()) == enc_strings(e),
        !has_nul(e.scheme_id_uri),
        !has_nul(e.value),
    ensures
        strings_at(b, p) == Ok::<(Seq<char>, Seq<char>, int), Error>(
            (e.scheme_id_uri, e.value, p + enc_strings(e).len()),
        ),
{
    let x = encode_utf8(e.scheme_id_uri).push(0u8);
    let y = encode_utf8(e.value).push(0u8);
    let w = b.subrange(p, p + enc_strings(e).len());
    let q = p + x.len();
    assert(b.subrange(p, q) =~= x) by {
        assert(b.subrange(p, q) =~= w.subrange(0, x.len() as int));
        assert((x + y).subrange(0, x.len() as int) =~= x);
    }
    assert(b.subrange(q, q + y.len()) =~= y) by {
        assert(b.subrange(q, q + y.len()) =~= w.subrange(x.len() as int, x.len() + y.len() as int));
        assert((x + y).subrange(x.len() as int, x.len() + y.len() as int) =~= y);
    }
    lemma_cstring_back(b, p, e.scheme_id_uri, "scheme_id_uri");
    lemma_cstring_back(b, q, e.value, "value");
}

/// What stands between two parts of a byte string.
proof fn lemma_middle(pre: Seq<u8>, x: Seq<u8>, post: Seq<u8>)
    ensures
        (pre + x + post).len() == pre.len() + x.len() + post.len(),
        (pre + x + post).subrange(pre.len() as int, pre.len() + x.len() as int) == x,
        (pre + x + post).subrange(pre.len() + x.len() as int, (pre + x + post).len() as int) == post,
{
    assert((pre + x + post).subrange(pre.len() as int, pre.len() + x.len() as int) =~= x);
    assert((pre + x + post).subrange(pre.len() + x.len() as int, (pre + x + post).len() as int) =~= post);
}

/// Part of a part of a byte string.
proof fn lemma_inner(b: Seq<u8>, p: int, w: Seq<u8>, i: int, j: int)
    requires
        0 <= p,
        p + w.len() <= b.len(),
        b.subrange(p, p + w.len()) == w,
        0 <= i <= j <= w.len(),
    ensures
        b.subrange(p + i, p + j) == w.subrange(i, j),
{
    assert(b.subrange(p + i, p + j) =~= b.subrange(p, p + w.len()).subrange(i, j));
}

/// Four numbers that were written one behind the other are read back.
proof fn lemma_words_back(b: Seq<u8>, p: int, w1: u32, w2: u32, w3: u32, w4: u32)
    requires
        0 <= p,
        p + 16 <= b.len(),
        b.subrange(p, p + 16) == enc32(w1) + enc32(w2) + enc32(w3) + enc32(w4),
    ensures
        be32(b, p) == w1,
        be32(b, p + 4) == w2,
        be32(b, p + 8) == w3,
        be32(b, p + 12) == w4,
{
    let w = enc32(w1) + enc32(w2) + enc32(w3) + enc32(w4);
    assert(w.subrange(0, 4) =~= enc32(w1));
    assert(w.subrange(4, 8) =~= enc32(w2));
    assert(w.subrange(8, 12) =~= enc32(w3));
    assert(w.subrange(12, 16) =~= enc32(w4));
    lemma_inner(b, p, w, 0, 4);
    lemma_inner(b, p, w, 4, 8);
    lemma_inner(b, p, w, 8, 12);
    lemma_inner(b, p, w, 12, 16);
    law_enc32_be32(w1, b, p);
    law_enc32_be32(w2, b, p + 4);
    law_enc32_be32(w3, b, p + 8);
    law_enc32_be32(w4, b, p + 12);
}

/// The numbers of version 1 that were written one behind the other are read back.
proof fn lemma_numbers_back(b: Seq<u8>, p: int, w1: u32, x: u64, w2: u32, w3: u32)
    requires
        0 <= p,
        p + 20 <= b.len(),
        b.subrange(p, p + 20) == enc32(w1) + enc64(x) + enc32(w2) + enc32(w3),
    ensures
        be32(b, p) == w1,
        be64(b, p + 4) == x,
        be32(b, p + 12) == w2,
        be32(b, p + 16) == w3,
{
    let w = enc32(w1) + enc64(x) + enc32(w2) + enc32(w3);
    assert(w.subrange(0, 4) =~= enc32(w1));
    assert(w.subrange(4, 12) =~= enc64(x));
    assert(w.subrange(12, 16) =~= enc32(w2));
    assert(w.subrange(16, 20) =~= enc32(w3));
    lemma_inner(b, p, w, 0, 4);
    lemma_inner(b, p, w, 4, 12);
    lemma_inner(b, p, w, 12, 16);
    lemma_inner(b, p, w, 16, 20);
    law_enc32_be32(w1, b, p);
    law_enc64_be64(x, b, p + 4);
    law_enc32_be32(w2, b, p + 12);
    law_enc32_be32(w3, b, p + 16);
}

proof fn lemma_v0_back(e: EmsgModel, delta: u32)
    requires
        e.presentation == EmsgTime::Delta(delta),
        !has_nul(e.scheme_id_uri),
        !has_nul(e.value),
    ensures
        emsg_of(emsg_payload(e)) == Ok::<EmsgModel, Error>(e),
{
    let b = emsg_payload(e);
    let h = enc32(0);
    let x = enc_strings(e);
    let n = enc32(e.timescale) + enc32(delta) + enc32(e.event_duration) + enc32(e.id);
    let p = 4 + x.len() as int;
    assert(b == h + x + n + e.message_data);
    assert(b =~= h + x + (n + e.message_data));
    assert(b[0] == h[0]);
    lemma_middle(h, x, n + e.message_data);
    lemma_middle(h + x, n, e.message_data);
    lemma_strings_back(b, 4, e);
    lemma_words_back(b, p, e.timescale, delta, e.event_duration, e.id);
}

proof fn lemma_v1_back(e: EmsgModel, time: u64)
    requires
        e.presentation == EmsgTime::Absolute(time),
        !has_nul(e.scheme_id_uri),
        !has_nul(e.value),
    ensures
        emsg_of(emsg_payload(e)) == Ok::<EmsgModel, Error>(e),
{
    let b = emsg_payload(e);
    let h = enc32(0x100_0000);
    let x = enc_strings(e);
    let n = enc32(e.timescale) + enc64(time) + enc32(e.event_duration) + enc32(e.id);
    assert(b == h + n + x + e.message_data);
    assert(b =~= h + n + (x + e.message_data));
    assert(b[0] == h[0]);
    lemma_middle(h, n, x + e.message_data);
    lemma_middle(h + n, x, e.message_data);
    lemma_numbers_back(b, 4, e.timescale, time, e.event_duration, e.id);
    lemma_strings_back(b, 24, e);
}

/// An event message is read back as it was written.
pub proof fn law_emsg_round_trip(e: EmsgModel)
    requires
        !has_nul(e.scheme_id_uri),
        !has_nul(e.value),
    ensures
        emsg_of(emsg_payload(e)) == Ok::<EmsgModel, Error>(e),
{
    match e.presentation {
        EmsgTime::Delta(delta) => lemma_v0_back(e, delta),
        EmsgTime::Absolute(time) => lemma_v1_back(e, time),
    }
}

/// A string that was read is written as it was, with its terminator.
proof fn lemma_cstring_forth(b: Seq<u8>, p: int, what: &'static str)
    requires
        0 <= p <= b.len(),
        cstring_at(b, p, what) is Ok,
    ensures
        ({
            let (s, end) = cstring_at(b, p, what)->Ok_0;
            &&& p < end <= b.len()
            &&& b.subrange(p, end) == encode_utf8(s).push(0u8)
            &&& !has_nul(s)
        }),
{
    broadcast use vstd::utf8::decode_utf8_encode_utf8;

    let rest = b.subrange(p, b.len() as int);
    lemma_first_nul(rest);
    let n = first_nul(rest);
    let x = rest.subrange(0, n);
    let (s, end) = cstring_at(b, p, what)->Ok_0;
    assert(encode_utf8(s) == x);
    assert(b.subrange(p, end) =~= x.push(0u8)) by {
        assert(rest[n] == 0);
    }
    if has_nul(s) {
        let k = x.index_of(0u8);
        assert(rest[k] == 0);
    }
}

/// The strings that were read are written as they were.
proof fn lemma_strings_forth(b: Seq<u8>, start: int)
    requires
        0 <= start <= b.len(),
        strings_at(b, start) is Ok,
    ensures
        ({
            let (scheme, value, p) = strings_at(b, start)->Ok_0;
            &&& start <= p <= b.len()
            &&& b.subrange(start, p) == encode_utf8(scheme).push(0u8) + encode_utf8(value).push(0u8)
            &&& !has_nul(scheme)
            &&& !has_nul(value)
        }),
{
    lemma_cstring_forth(b, start, "scheme_id_uri");
    let (s, q) = cstring_at(b, start, "scheme_id_uri")->Ok_0;
    lemma_cstring_forth(b, q, "value");
    let (v, p) = cstring_at(b, q, "value")->Ok_0;
    assert(b.subrange(start, p) =~= b.subrange(start, q) + b.subrange(q, p));
}

proof fn lemma_v0_forth(b: Seq<u8>)
    requires
        b.len() >= 4,
        emsg_v0(b) is Ok,
        b[0] == 0 && b[1] == 0 && b[2] == 0 && b[3] == 0,
    ensures
        emsg_payload(emsg_v0(b)->Ok_0) == b,
        !has_nul(emsg_v0(b)->Ok_0.scheme_id_uri),
        !has_nul(emsg_v0(b)->Ok_0.value),
{
    let e = emsg_v0(b)->Ok_0;
    lemma_strings_forth(b, 4);
    let p = strings_at(b, 4)->Ok_0.2;
    lemma_enc32_forth(b, p);
    lemma_enc32_forth(b, p + 4);
    lemma_enc32_forth(b, p + 8);
    lemma_enc32_forth(b, p + 12);
    let n = b.subrange(p, p + 4) + b.subrange(p + 4, p + 8) + b.subrange(p + 8, p + 12) + b.subrange(p + 12, p + 16);
    assert(n =~= b.subrange(p, p + 16));
    assert(b.subrange(0, 4) =~= enc32(0));
    assert(emsg_payload(e) == b.subrange(0, 4) + b.subrange(4, p) + n + b.subrange(p + 16, b.len() as int));
    assert(b.subrange(0, 4) + b.subrange(4, p) + b.subrange(p, p + 16) + b.subrange(p + 16, b.len() as int) =~= b);
}

proof fn lemma_v1_forth(b: Seq<u8>)
    requires
        b.len() >= 4,
        emsg_v1(b) is Ok,
        b[0] == 1 && b[1] == 0 && b[2] == 0 && b[3] == 0,
    ensures
        emsg_payload(emsg_v1(b)->Ok_0) == b,
        !has_nul(emsg_v1(b)->Ok_0.scheme_id_uri),
        !has_nul(emsg_v1(b)->Ok_0.value),
{
    let e = emsg_v1(b)->Ok_0;
    lemma_strings_forth(b, 24);
    let p = strings_at(b, 24)->Ok_0.2;
    lemma_enc32_forth(b, 4);
    lemma_enc64_forth(b, 8);
    lemma_enc32_forth(b, 16);
    lemma_enc32_forth(b, 20);
    let n = b.subrange(4, 8) + b.subrange(8, 16) + b.subrange(16, 20) + b.subrange(20, 24);
    assert(n =~= b.subrange(4, 24));
    assert(b.subrange(0, 4) =~= enc32(0x100_0000));
    assert(emsg_payload(e) == b.subrange(0, 4) + n + b.subrange(24, p) + b.subrange(p, b.len() as int));
    assert(b.subrange(0, 4) + b.subrange(4, 24) + b.subrange(24, p) + b.subrange(p, b.len() as int) =~= b);
}

/// A payload without flags that was read is written as it was.
pub proof fn law_emsg_bytes(b: Seq<u8>)
    requires
        emsg_of(b) is Ok,
        b[1] == 0 && b[2] == 0 && b[3] == 0,
    ensures
        emsg_payload(emsg_of(b)->Ok_0) == b,
        !has_nul(emsg_of(b)->Ok_0.scheme_id_uri),
        !has_nul(emsg_of(b)->Ok_0.value),
{
    if b[0] == 0 {
        lemma_v0_forth(b);
    } else {
        lemma_v1_forth(b);
    }
}

/// A number that was read is written as it was.
proof fn lemma_enc32_forth(b: Seq<u8>, p: int)
    requires
        0 <= p,
        p + 4 <= b.len(),
    ensures
        enc32(be32(b, p)) == b.subrange(p, p + 4),
{
    reveal(be32);
    let v = be32(b, p);
    assert(v == b[p] as int * 0x100_0000 + b[p + 1] as int * 0x1_0000 + b[p + 2] as int * 0x100 + b[p + 3] as int);
    assert(v / 0x100_0000 == b[p]);
    assert(v / 0x1_0000 == b[p] as int * 0x100 + b[p + 1]);
    assert(v / 0x100 == b[p] as int * 0x1_0000 + b[p + 1] as int * 0x100 + b[p + 2]);
    assert(enc32(v) =~= b.subrange(p, p + 4));
}

/// A long number that was read is written as it was.
proof fn lemma_enc64_forth(b: Seq<u8>, p: int)
    requires
        0 <= p,
        p + 8 <= b.len(),
    ensures
        enc64(be64(b, p)) == b.subrange(p, p + 8),
{
    reveal(be64);
    lemma_enc32_forth(b, p);
    lemma_enc32_forth(b, p + 4);
    let v = be64(b, p);
    assert(v / 0x1_0000_0000 == be32(b, p));
    assert(v % 0x1_0000_0000 == be32(b, p + 4));
    assert(enc64(v) =~= b.subrange(p, p + 8));
}

/// The box of an event message has the size and code that its header says, and its payload is read back.
pub proof fn law_emsg_box(e: EmsgModel)
    requires
        emsg_box(e) is Ok,
    ensures
        ({
            let b = emsg_box(e)->Ok_0;
            &&& header_at(b, 0) matches Ok(h) && h.kind == EMSG && h.total_size == Some(b.len() as u64)
            &&& emsg_of(b.subrange(8, b.len() as int)) == Ok::<EmsgModel, Error>(e)
        }),
{
    law_boxed_header(EMSG, emsg_payload(e));
    law_emsg_round_trip(e);
}

/// A record that is refused for a zero byte in a string would not be read back as it is.
pub proof fn law_emsg_nul_not_read_back(e: EmsgModel)
    requires
        has_nul(e.scheme_id_uri) || has_nul(e.value),
    ensures
        emsg_of(emsg_payload(e)) != Ok::<EmsgModel, Error>(e),
{
    let b = emsg_payload(e);
    let p = if b[0] == 0 { 4int } else { 24int };
    assert(e.presentation is Delta ==> b[0] == enc32(0)[0]);
    assert(e.presentation is Absolute ==> b[0] == enc32(0x100_0000)[0]);
    assert(p <= b.len());
    if let Ok(m) = emsg_of(b) {
        let first = cstring_at(b, p, "scheme_id_uri");
        lemma_cstring_forth(b, p, "scheme_id_uri");
        let q = first->Ok_0.1;
        lemma_cstring_forth(b, q, "value");
    }
}

}
