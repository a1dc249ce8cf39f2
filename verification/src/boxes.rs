//! Boxes: headers and walks over the children of a container.
use vstd::prelude::*;
use crate::bytes::{
    be32, be64, code_at, enc32, law_enc32_be32, push_bytes, push_u32, read_code, read_u32, read_u64,
};
use crate::error::{Error, Result};
use crate::numbers::{length32, low32};

verus! {

/// The header of a box.
#[derive(Clone, Copy, Debug, PartialEq, Eq)]
pub struct BoxHeader {
    /// The four-character code.
    pub fourcc: [u8; 4],
    /// The code as a big-endian number.
    pub kind: u32,
    /// The size of the whole box, or `None` where it runs to the end of the file.
    pub total_size: Option<u64>,
    /// The size of the header itself.
    pub header_len: u64,
}

impl BoxHeader {
    /// A header that `header_at` can give: the box is at least as long as its header.
    pub open spec fn wf(self) -> bool {
        &&& self.header_len == 8 || self.header_len == 16
        &&& self.total_size matches Some(t) ==> t >= self.header_len
    }

    /// The size of what follows the header, or `None` where it runs to the end of the file.
    pub open spec fn payload(self) -> Option<u64> {
        match self.total_size {
            Some(t) => Some((t - self.header_len) as u64),
            None => None,
        }
    }

    /// The size of what follows the header, or `None` where it runs to the end of the file.
    pub fn payload_size(&self) -> (r: Option<u64>)
        requires
            self.wf(),
        ensures
            r == self.payload(),
    {
        match self.total_size {
            Some(t) => Some(t - self.header_len),
            None => None,
        }
    }
}

/// The header that starts at byte `pos`.
pub open spec fn header_at(b: Seq<u8>, pos: int) -> Result<BoxHeader> {
    let fourcc = code_at(b, pos + 4);
    let kind = be32(b, pos + 4);
    if b.len() - pos < 8 {
        Err(Error::invalid("MP4: truncated box header"))
    } else if be32(b, pos) == 0 {
        Ok(BoxHeader { fourcc, kind, total_size: None, header_len: 8 })
    } else if be32(b, pos) == 1 {
        if b.len() - pos < 16 {
            Err(Error::invalid("MP4: truncated box header"))
        } else if be64(b, pos + 8) < 16 {
            Err(Error::invalid("MP4: box smaller than its header"))
        } else {
            Ok(BoxHeader { fourcc, kind, total_size: Some(be64(b, pos + 8)), header_len: 16 })
        }
    } else if be32(b, pos) < 8 {
        Err(Error::invalid("MP4: box smaller than its header"))
    } else {
        Ok(BoxHeader { fourcc, kind, total_size: Some(be32(b, pos) as u64), header_len: 8 })
    }
}

/// Reads the header that starts at byte `pos`.
pub fn read_header(b: &[u8], pos: usize) -> (r: Result<BoxHeader>)
    requires
        pos <= b@.len(),
    ensures
        r == header_at(b@, pos as int),
        r matches Ok(h) ==> h.wf() && pos + h.header_len <= b@.len(),
{
    let left: usize = b.len() - pos;
    if left < 8 {
        return Err(Error::invalid("MP4: truncated box header"));
    }
    let size: u32 = read_u32(b, pos);
    let fourcc = read_code(b, pos + 4);
    let kind: u32 = read_u32(b, pos + 4);
    if size == 0 {
        Ok(BoxHeader { fourcc, kind, total_size: None, header_len: 8 })
    } else if size == 1 {
        if left < 16 {
            return Err(Error::invalid("MP4: truncated box header"));
        }
        let large: u64 = read_u64(b, pos + 8);
        if large < 16 {
            return Err(Error::invalid("MP4: box smaller than its header"));
        }
        Ok(BoxHeader { fourcc, kind, total_size: Some(large), header_len: 16 })
    } else if size < 8 {
        Err(Error::invalid("MP4: box smaller than its header"))
    } else {
        Ok(BoxHeader { fourcc, kind, total_size: Some(size as u64), header_len: 8 })
    }
}

/// A child box as a walk meets it: `data` is its payload as far as the container
/// holds it, and `whole` says that the container holds all of it.
pub ghost struct Child {
    pub fourcc: [u8; 4],
    pub kind: u32,
    pub data: Seq<u8>,
    pub whole: bool,
}

/// The payload size that a walk takes a header to declare; an open-ended box counts as empty.
pub open spec fn declared(h: BoxHeader) -> int {
    match h.payload() {
        Some(n) => n as int,
        None => 0,
    }
}

/// Where the payload of a box ends, at most at the end of the container.
pub open spec fn payload_end(b: Seq<u8>, start: int, h: BoxHeader) -> int {
    if start + declared(h) <= b.len() { start + declared(h) } else { b.len() as int }
}

/// The child with header `h` at byte `pos`.
pub open spec fn child_at(b: Seq<u8>, pos: int, h: BoxHeader) -> Child {
    let start = pos + h.header_len;
    Child {
        fourcc: h.fourcc,
        kind: h.kind,
        data: b.subrange(start, payload_end(b, start, h)),
        whole: start + declared(h) <= b.len(),
    }
}

/// Where the child after the one with header `h` at `pos` starts.
pub open spec fn next_pos(b: Seq<u8>, pos: int, h: BoxHeader) -> int {
    payload_end(b, pos + h.header_len, h)
}

/// The payload of a child that is read: it must be there in full.
pub open spec fn body_of(c: Child) -> Result<Seq<u8>> {
    if c.whole { Ok(c.data) } else { Err(Error::invalid("MP4: truncated box payload")) }
}

/// What a walk has come to: the state, and whether it failed.
pub type Outcome<S> = (S, Result<()>);

/// A walk over the children from byte `pos` on. A malformed header ends it with an
/// error, and so does a child that `step` refuses.
pub open spec fn walk<S>(b: Seq<u8>, pos: int, s: S, step: spec_fn(S, Child) -> Outcome<S>) -> Outcome<S>
    decreases b.len() - pos,
{
    if pos >= b.len() {
        (s, Ok(()))
    } else {
        match header_at(b, pos) {
            Err(e) => (s, Err(e)),
            Ok(h) => {
                let (s2, r) = step(s, child_at(b, pos, h));
                if r is Err {
                    (s2, r)
                } else if next_pos(b, pos, h) <= pos {
                    (s2, r)
                } else {
                    walk(b, next_pos(b, pos, h), s2, step)
                }
            },
        }
    }
}

/// Whether one of the children from byte `pos` on is of the given kind.
pub open spec fn has_child(b: Seq<u8>, pos: int, kind: u32) -> bool
    decreases b.len() - pos,
{
    if pos >= b.len() {
        false
    } else {
        match header_at(b, pos) {
            Err(_) => false,
            Ok(h) => child_at(b, pos, h).kind == kind || (next_pos(b, pos, h) > pos && has_child(
                b,
                next_pos(b, pos, h),
                kind,
            )),
        }
    }
}

/// A walk that never fails: a malformed header, or a child that the container does
/// not hold in full, ends it quietly.
pub open spec fn walk_lenient<S>(b: Seq<u8>, pos: int, s: S, step: spec_fn(S, Child) -> S) -> S
    decreases b.len() - pos,
{
    if pos >= b.len() {
        s
    } else {
        match header_at(b, pos) {
            Err(_) => s,
            Ok(h) => {
                let c = child_at(b, pos, h);
                if !c.whole || next_pos(b, pos, h) <= pos {
                    s
                } else {
                    walk_lenient(b, next_pos(b, pos, h), step(s, c), step)
                }
            },
        }
    }
}

/// What holds of a state and is kept by every step holds of what a walk comes to.
pub proof fn lemma_walk_keeps<S>(
    b: Seq<u8>,
    pos: int,
    s: S,
    step: spec_fn(S, Child) -> Outcome<S>,
    inv: spec_fn(S) -> bool,
)
    requires
        inv(s),
        forall|s: S, c: Child| inv(s) ==> inv(#[trigger] step(s, c).0),
    ensures
        inv(walk(b, pos, s, step).0),
    decreases b.len() - pos,
{
    if pos < b.len() {
        if let Ok(h) = header_at(b, pos) {
            let (s2, r) = step(s, child_at(b, pos, h));
            if r is Ok && next_pos(b, pos, h) > pos {
                lemma_walk_keeps(b, next_pos(b, pos, h), s2, step, inv);
            }
        }
    }
}

/// A child box in a container held in memory.
pub struct ChildRef<'a> {
    pub fourcc: [u8; 4],
    pub kind: u32,
    pub data: &'a [u8],
    pub whole: bool,
    /// Where the next child starts.
    pub next: usize,
}

impl<'a> View for ChildRef<'a> {
    type V = Child;

    open spec fn view(&self) -> Child {
        Child { fourcc: self.fourcc, kind: self.kind, data: self.data@, whole: self.whole }
    }
}

impl<'a> ChildRef<'a> {
    /// The payload, where the container holds all of it.
    pub fn body(&self) -> (r: Result<&'a [u8]>)
        ensures
            match r {
                Ok(d) => body_of(self@) == Ok::<Seq<u8>, Error>(d@),
                Err(e) => body_of(self@) == Err::<Seq<u8>, Error>(e),
            },
    {
        if self.whole {
            Ok(self.data)
        } else {
            Err(Error::invalid("MP4: truncated box payload"))
        }
    }
}

/// Reads the child that starts at byte `pos`.
pub fn next_child<'a>(b: &'a [u8], pos: usize) -> (r: Result<ChildRef<'a>>)
    requires
        pos < b@.len(),
    ensures
        match (r, header_at(b@, pos as int)) {
            (Ok(c), Ok(h)) => {
                &&& c@ == child_at(b@, pos as int, h)
                &&& c.next == next_pos(b@, pos as int, h)
                &&& pos < c.next <= b@.len()
            },
            (Err(e), Err(e2)) => e == e2,
            _ => false,
        },
{
    match read_header(b, pos) {
        Err(e) => Err(e),
        Ok(h) => {
            let len: usize = b.len();
            assert(pos + h.header_len <= len);
            let start: usize = pos + h.header_len as usize;
            let left: usize = len - start;
            let size: u64 = match h.payload_size() {
                Some(n) => n,
                None => 0,
            };
            let whole = size <= left as u64;
            let next: usize = if whole { start + size as usize } else { len };
            Ok(ChildRef { fourcc: h.fourcc, kind: h.kind, data: &b[start..next], whole, next })
        },
    }
}

/// `n` items one after the other from byte `off` on, behind those in `acc`, and where
/// they end. `item` reads one and says where the next one starts.
pub open spec fn items<T>(
    b: Seq<u8>,
    off: int,
    n: nat,
    acc: Seq<T>,
    item: spec_fn(Seq<u8>, int) -> Result<(T, int)>,
) -> Result<(Seq<T>, int)>
    decreases n,
{
    if n == 0 {
        Ok((acc, off))
    } else {
        match item(b, off) {
            Err(e) => Err(e),
            Ok((x, next)) => items(b, next, (n - 1) as nat, acc.push(x), item),
        }
    }
}

/// The views of the values in a sequence.
pub open spec fn views<T: View>(s: Seq<T>) -> Seq<T::V> {
    Seq::new(s.len(), |i: int| s[i]@)
}

/// The view of a value that may be missing.
pub open spec fn opt_view<T: View>(o: Option<T>) -> Option<T::V> {
    match o {
        Some(x) => Some(x@),
        None => None,
    }
}

/// The views of a sequence with one more value.
pub proof fn lemma_views_push<T: View>(s: Seq<T>, x: T)
    ensures
        views(s.push(x)) == views(s).push(x@),
{
    assert(views(s.push(x)) =~= views(s).push(x@));
}

/// A whole box: size, code and payload.
pub open spec fn boxed(code: u32, payload: Seq<u8>) -> Seq<u8> {
    enc32(low32(8 + payload.len() as int)) + enc32(code) + payload
}

/// Builds a whole box: size, code and payload.
pub fn wrap_box(code: u32, payload: &[u8]) -> (out: Vec<u8>)
    ensures
        out@ == boxed(code, payload@),
{
    let mut out: Vec<u8> = Vec::new();
    push_u32(&mut out, length32(payload.len(), 8));
    push_u32(&mut out, code);
    push_bytes(&mut out, payload);
    proof { assert(out@ =~= boxed(code, payload@)); }
    out
}

/// A box of less than 2 to the power 32 bytes is read back with its size and code.
pub proof fn law_boxed_header(code: u32, payload: Seq<u8>)
    requires
        8 + payload.len() < 0x1_0000_0000,
    ensures
        header_at(boxed(code, payload), 0) matches Ok(h) && h.kind == code && h.header_len == 8 && h.total_size == Some(
            (8 + payload.len()) as u64,
        ),
        boxed(code, payload).len() == 8 + payload.len(),
        boxed(code, payload).subrange(8, 8 + payload.len() as int) == payload,
{
    let b = boxed(code, payload);
    assert(b.subrange(0, 4) =~= enc32((8 + payload.len()) as u32));
    assert(b.subrange(4, 8) =~= enc32(code));
    law_enc32_be32((8 + payload.len()) as u32, b, 0);
    law_enc32_be32(code, b, 4);
    assert(b.subrange(8, 8 + payload.len() as int) =~= payload);
}

}
