//! Containers that are made of boxes, one behind the other: a walk meets each of them once, in order.
use vstd::prelude::*;
use crate::boxes::{boxed, child_at, header_at, next_pos, walk, walk_lenient, Child, Outcome};
use crate::bytes::{code_at, enc32};
use crate::roundtrip::{box_at, law_box_read_back};

verus! {

/// A box: its code and its payload.
pub type Part = (u32, Seq<u8>);

/// The bytes of boxes, one behind the other.
pub open spec fn box_list(parts: Seq<Part>) -> Seq<u8>
    decreases parts.len(),
{
    if parts.len() == 0 { Seq::empty() } else { boxed(parts[0].0, parts[0].1) + box_list(parts.drop_first()) }
}

/// Whether each box is shorter than 2 to the power 32 bytes.
pub open spec fn parts_fit(parts: Seq<Part>) -> bool {
    forall|i: int| 0 <= i < parts.len() ==> 8 + (#[trigger] parts[i]).1.len() < 0x1_0000_0000
}

/// A box as a walk meets it.
pub open spec fn part_child(p: Part) -> Child {
    Child { fourcc: code_at(enc32(p.0), 0), kind: p.0, data: p.1, whole: true }
}

/// What the boxes come to, taken one after the other.
pub open spec fn each_part<S>(parts: Seq<Part>, s: S, step: spec_fn(S, Child) -> Outcome<S>) -> Outcome<S>
    decreases parts.len(),
{
    if parts.len() == 0 {
        (s, Ok(()))
    } else {
        let (s2, r) = step(s, part_child(parts[0]));
        if r is Err { (s2, r) } else { each_part(parts.drop_first(), s2, step) }
    }
}

/// What the boxes come to, taken one after the other by steps that do not fail.
pub open spec fn each_part_lenient<S>(parts: Seq<Part>, s: S, step: spec_fn(S, Child) -> S) -> S
    decreases parts.len(),
{
    if parts.len() == 0 {
        s
    } else {
        each_part_lenient(parts.drop_first(), step(s, part_child(parts[0])), step)
    }
}

/// The first of the boxes is met behind `pre`, and the others behind it.
pub proof fn lemma_first_part(pre: Seq<u8>, parts: Seq<Part>)
    requires
        parts_fit(parts),
        parts.len() > 0,
    ensures
        ({
            let b = pre + box_list(parts);
            let pre2 = pre + boxed(parts[0].0, parts[0].1);
            &&& b == pre2 + box_list(parts.drop_first())
            &&& parts_fit(parts.drop_first())
            &&& pre.len() < b.len()
            &&& header_at(b, pre.len() as int) matches Ok(h) && {
                &&& child_at(b, pre.len() as int, h) == part_child(parts[0])
                &&& next_pos(b, pre.len() as int, h) == pre2.len()
                &&& pre2.len() == pre.len() + 8 + parts[0].1.len()
            }
        }),
{
    let (code, data) = parts[0];
    let x = boxed(code, data);
    let rest = box_list(parts.drop_first());
    let b = pre + box_list(parts);
    let pos = pre.len() as int;
    assert(b =~= pre + x + rest);
    assert(x.len() == 8 + data.len());
    assert(b.subrange(pos, pos + 8 + data.len()) =~= x);
    assert(box_at(b, pos, code, data));
    law_box_read_back(b, pos, code, data);
    let h = header_at(b, pos)->Ok_0;
    let c = child_at(b, pos, h);
    assert(b.subrange(pos + 4, pos + 8) =~= enc32(code)) by {
        assert(x.subrange(4, 8) =~= enc32(code));
        assert(b.subrange(pos + 4, pos + 8) =~= x.subrange(4, 8));
    }
    let w = b.subrange(pos + 4, pos + 8);
    assert(w[0] == b[pos + 4] && w[1] == b[pos + 5] && w[2] == b[pos + 6] && w[3] == b[pos + 7]);
    assert(code_at(b, pos + 4) =~= code_at(enc32(code), 0));
    let p = parts.drop_first();
    assert forall|i: int| 0 <= i < p.len() implies 8 + (#[trigger] p[i]).1.len() < 0x1_0000_0000 by {
        assert(p[i] == parts[i + 1]);
    }
}

pub proof fn lemma_walk_parts<S>(pre: Seq<u8>, parts: Seq<Part>, s: S, step: spec_fn(S, Child) -> Outcome<S>)
    requires
        parts_fit(parts),
    ensures
        walk(pre + box_list(parts), pre.len() as int, s, step) == each_part(parts, s, step),
    decreases parts.len(),
{
    if parts.len() > 0 {
        lemma_first_part(pre, parts);
        let (s2, r) = step(s, part_child(parts[0]));
        if r is Ok {
            lemma_walk_parts(pre + boxed(parts[0].0, parts[0].1), parts.drop_first(), s2, step);
        }
    } else {
        assert(pre + box_list(parts) =~= pre);
    }
}

/// A walk over boxes, one behind the other, takes them in order.
pub proof fn law_walk_in_order<S>(parts: Seq<Part>, s: S, step: spec_fn(S, Child) -> Outcome<S>)
    requires
        parts_fit(parts),
    ensures
        walk(box_list(parts), 0, s, step) == each_part(parts, s, step),
{
    lemma_walk_parts(Seq::empty(), parts, s, step);
    assert(Seq::<u8>::empty() + box_list(parts) =~= box_list(parts));
}

pub proof fn lemma_lenient_parts<S>(pre: Seq<u8>, parts: Seq<Part>, s: S, step: spec_fn(S, Child) -> S)
    requires
        parts_fit(parts),
    ensures
        walk_lenient(pre + box_list(parts), pre.len() as int, s, step) == each_part_lenient(parts, s, step),
    decreases parts.len(),
{
    if parts.len() > 0 {
        lemma_first_part(pre, parts);
        lemma_lenient_parts(
            pre + boxed(parts[0].0, parts[0].1),
            parts.drop_first(),
            step(s, part_child(parts[0])),
            step,
        );
    } else {
        assert(pre + box_list(parts) =~= pre);
    }
}

/// A walk that does not fail takes boxes, one behind the other, in order.
pub proof fn law_lenient_in_order<S>(parts: Seq<Part>, s: S, step: spec_fn(S, Child) -> S)
    requires
        parts_fit(parts),
    ensures
        walk_lenient(box_list(parts), 0, s, step) == each_part_lenient(parts, s, step),
{
    lemma_lenient_parts(Seq::empty(), parts, s, step);
    assert(Seq::<u8>::empty() + box_list(parts) =~= box_list(parts));
}

}
