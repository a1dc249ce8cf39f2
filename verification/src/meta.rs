//! Metadata of a movie: titles, authors and the like.
use vstd::prelude::*;
use crate::boxes::{lemma_views_push, next_child, views, walk_lenient, Child};
use crate::kinds::{
    ALBM, AUTH, A_ART, CPRT, C_ALB, C_ART, C_CMT, C_CPY, C_DAY, C_GEN, C_LYR, C_NAM, C_TOO, C_WRT, DATA,
    DESC, DISK, DSCP, GNRE, ILST, META, TITL, TRKN, YRRC,
};
use crate::text::{decode_utf8_or_utf16, decoded_text, from_utf8_lossy, is_empty, trim, trimmed, utf8_lossy};

verus! {

/// Metadata: keys and values, in file order.
pub type Metadata = Seq<(Seq<char>, Seq<char>)>;

/// Appends a key and a value.
pub(crate) fn push_meta(metadata: &mut Vec<(String, String)>, key: &str, value: String)
    ensures
        views(final(metadata)@) == views(old(metadata)@).push((key@, value@)),
{
    let row = (key.to_owned(), value);
    proof { lemma_views_push(metadata@, row); }
    metadata.push(row);
}

/// The key of an item of an item list.
pub open spec fn ilst_key(kind: u32) -> Option<&'static str> {
    if kind == C_NAM {
        Some("title")
    } else if kind == C_ART {
        Some("artist")
    } else if kind == C_ALB {
        Some("album")
    } else if kind == C_CMT {
        Some("comment")
    } else if kind == C_GEN {
        Some("genre")
    } else if kind == C_DAY {
        Some("date")
    } else if kind == C_WRT {
        Some("composer")
    } else if kind == C_TOO {
        Some("encoder")
    } else if kind == C_CPY || kind == CPRT {
        Some("copyright")
    } else if kind == C_LYR {
        Some("lyrics")
    } else if kind == A_ART {
        Some("album_artist")
    } else if kind == TRKN {
        Some("track")
    } else if kind == DISK {
        Some("disc")
    } else if kind == DESC {
        Some("description")
    } else {
        None
    }
}

/// The key of an item of an item list.
pub fn ilst_key_for(kind: u32) -> (r: Option<&'static str>)
    ensures
        r == ilst_key(kind),
{
    if kind == C_NAM {
        Some("title")
    } else if kind == C_ART {
        Some("artist")
    } else if kind == C_ALB {
        Some("album")
    } else if kind == C_CMT {
        Some("comment")
    } else if kind == C_GEN {
        Some("genre")
    } else if kind == C_DAY {
        Some("date")
    } else if kind == C_WRT {
        Some("composer")
    } else if kind == C_TOO {
        Some("encoder")
    } else if kind == C_CPY || kind == CPRT {
        Some("copyright")
    } else if kind == C_LYR {
        Some("lyrics")
    } else if kind == A_ART {
        Some("album_artist")
    } else if kind == TRKN {
        Some("track")
    } else if kind == DISK {
        Some("disc")
    } else if kind == DESC {
        Some("description")
    } else {
        None
    }
}

/// What one child of an item with the given key adds: the text behind eight bytes of a data
/// box, without white space around it, unless it is empty.
pub open spec fn item_step(m: Metadata, key: Seq<char>, c: Child) -> Metadata {
    let value = trimmed(utf8_lossy(c.data.subrange(8, c.data.len() as int)));
    if c.kind == DATA && c.data.len() > 8 && value.len() != 0 { m.push((key, value)) } else { m }
}

/// What an item with the given key from byte `pos` on adds.
pub open spec fn item_from(b: Seq<u8>, pos: int, m: Metadata, key: Seq<char>) -> Metadata {
    walk_lenient(b, pos, m, |m: Metadata, c: Child| item_step(m, key, c))
}

/// Parses an item of an item list.
fn parse_item(item: &[u8], key: &str, metadata: &mut Vec<(String, String)>)
    ensures
        views(final(metadata)@) == item_from(item@, 0, views(old(metadata)@), key@),
{
    let mut pos: usize = 0;
    while pos < item.len()
        invariant
            pos <= item@.len(),
            item_from(item@, 0, views(old(metadata)@), key@) == item_from(item@, pos as int, views(metadata@), key@),
        decreases item@.len() - pos,
    {
        let c = match next_child(item, pos) {
            Ok(c) => c,
            Err(_) => return,
        };
        if !c.whole {
            return;
        }
        if c.kind == DATA && c.data.len() > 8 {
            let text = from_utf8_lossy(&c.data[8..c.data.len()]);
            let value = trim(text.as_str());
            if !is_empty(&value) {
                push_meta(metadata, key, value);
            }
        }
        pos = c.next;
    }
}

/// What one item of an item list adds.
pub open spec fn ilst_step(m: Metadata, c: Child) -> Metadata {
    match ilst_key(c.kind) {
        None => m,
        Some(key) => item_from(c.data, 0, m, key@),
    }
}

/// What an item list from byte `pos` on adds.
pub open spec fn ilst_from(b: Seq<u8>, pos: int, m: Metadata) -> Metadata {
    walk_lenient(b, pos, m, |m: Metadata, c: Child| ilst_step(m, c))
}

/// Parses an item list.
pub fn parse_ilst(body: &[u8], metadata: &mut Vec<(String, String)>)
    ensures
        views(final(metadata)@) == ilst_from(body@, 0, views(old(metadata)@)),
{
    let mut pos: usize = 0;
    while pos < body.len()
        invariant
            pos <= body@.len(),
            ilst_from(body@, 0, views(old(metadata)@)) == ilst_from(body@, pos as int, views(metadata@)),
        decreases body@.len() - pos,
    {
        let c = match next_child(body, pos) {
            Ok(c) => c,
            Err(_) => return,
        };
        if !c.whole {
            return;
        }
        if let Some(key) = ilst_key_for(c.kind) {
            parse_item(c.data, key, metadata);
        }
        pos = c.next;
    }
}

/// What one child of a metadata box adds.
pub open spec fn meta_step(m: Metadata, c: Child) -> Metadata {
    if c.kind == ILST { ilst_from(c.data, 0, m) } else { m }
}

/// What the children of a metadata box from byte `pos` on add.
pub open spec fn meta_from(b: Seq<u8>, pos: int, m: Metadata) -> Metadata {
    walk_lenient(b, pos, m, |m: Metadata, c: Child| meta_step(m, c))
}

/// What a metadata box adds; its children come behind four bytes of version and flags.
pub open spec fn meta_of(m: Metadata, b: Seq<u8>) -> Metadata {
    if b.len() < 4 { m } else { meta_from(b.subrange(4, b.len() as int), 0, m) }
}

/// Parses a metadata box.
pub fn parse_meta(body: &[u8], metadata: &mut Vec<(String, String)>)
    ensures
        views(final(metadata)@) == meta_of(views(old(metadata)@), body@),
{
    if body.len() < 4 {
        return;
    }
    let rest = &body[4..body.len()];
    let mut pos: usize = 0;
    while pos < rest.len()
        invariant
            pos <= rest@.len(),
            meta_of(views(old(metadata)@), body@) == meta_from(rest@, pos as int, views(metadata@)),
        decreases rest@.len() - pos,
    {
        let c = match next_child(rest, pos) {
            Ok(c) => c,
            Err(_) => return,
        };
        if !c.whole {
            return;
        }
        if c.kind == ILST {
            parse_ilst(c.data, metadata);
        }
        pos = c.next;
    }
}

/// The key of a child of the user data of a movie.
pub open spec fn udta_key(kind: u32) -> Option<&'static str> {
    if kind == TITL {
        Some("title")
    } else if kind == AUTH {
        Some("artist")
    } else if kind == CPRT {
        Some("copyright")
    } else if kind == DSCP {
        Some("description")
    } else if kind == GNRE {
        Some("genre")
    } else if kind == ALBM {
        Some("album")
    } else if kind == YRRC {
        Some("date")
    } else {
        None
    }
}

/// The key of a child of the user data of a movie.
pub fn udta_key_for(kind: u32) -> (r: Option<&'static str>)
    ensures
        r == udta_key(kind),
{
    if kind == TITL {
        Some("title")
    } else if kind == AUTH {
        Some("artist")
    } else if kind == CPRT {
        Some("copyright")
    } else if kind == DSCP {
        Some("description")
    } else if kind == GNRE {
        Some("genre")
    } else if kind == ALBM {
        Some("album")
    } else if kind == YRRC {
        Some("date")
    } else {
        None
    }
}

/// What one child of the user data of a movie adds: a metadata box adds its items, and a text
/// box its text behind six bytes of version, flags and language, unless it is empty.
pub open spec fn udta_step(m: Metadata, c: Child) -> Metadata {
    if c.kind == META {
        meta_of(m, c.data)
    } else {
        match udta_key(c.kind) {
            Some(key) if c.data.len() >= 6 => {
                let text = decoded_text(c.data.subrange(6, c.data.len() as int));
                if text.len() != 0 { m.push((key@, text)) } else { m }
            },
            _ => m,
        }
    }
}

/// What the user data of a movie from byte `pos` on adds.
pub open spec fn udta_from(b: Seq<u8>, pos: int, m: Metadata) -> Metadata {
    walk_lenient(b, pos, m, |m: Metadata, c: Child| udta_step(m, c))
}

/// Parses the user data of a movie.
pub fn parse_udta(body: &[u8], metadata: &mut Vec<(String, String)>)
    ensures
        views(final(metadata)@) == udta_from(body@, 0, views(old(metadata)@)),
{
    let mut pos: usize = 0;
    while pos < body.len()
        invariant
            pos <= body@.len(),
            udta_from(body@, 0, views(old(metadata)@)) == udta_from(body@, pos as int, views(metadata@)),
        decreases body@.len() - pos,
    {
        let c = match next_child(body, pos) {
            Ok(c) => c,
            Err(_) => return,
        };
        if !c.whole {
            return;
        }
        if c.kind == META {
            parse_meta(c.data, metadata);
        } else if let Some(key) = udta_key_for(c.kind) {
            if c.data.len() >= 6 {
                let text = decode_utf8_or_utf16(&c.data[6..c.data.len()]);
                if !is_empty(&text) {
                    push_meta(metadata, key, text);
                }
            }
        }
        pos = c.next;
    }
}

}
