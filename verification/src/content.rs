//! The content a document is made of: words, symbols, types, items and tags.
use vstd::prelude::*;
use crate::ids::{Id, SiteId};
use crate::keys::{WordId, SymbolId, ObjectId, SequenceId, TypeId};

verus! {

/// A kind of sequence with a meaning, such as a paragraph or a heading.
#[derive(Debug, Clone)]
pub struct Type {
    pub description: String,
}

impl Type {
    pub fn new(description: &str) -> (r: Type)
        ensures
            r.description@ == description@,
    {
        Type { description: description.to_owned() }
    }
}

/// A word of running text.
#[derive(Debug, Clone)]
pub struct Word {
    pub text: String,
}

/// A symbol (punctuation and the like), with how it behaves at line ends.
/// `leading` symbols take no space after them (opening brackets), `trailing`
/// ones no space before them (closing brackets).  `overflow_left` and
/// `overflow_right` are 1 for a symbol that may hang into the margin on that
/// side, else 0.
#[derive(Debug, Clone)]
pub struct Symbol {
    pub text: String,
    pub leading: bool,
    pub trailing: bool,
    pub overflow_left: u8,
    pub overflow_right: u8,
}

/// A font face, as the bytes of its font file.
#[derive(Debug, Clone)]
pub struct FontFace {
    pub data: Vec<u8>,
}

impl FontFace {
    pub fn from_data(data: Vec<u8>) -> (r: FontFace)
        ensures
            r.data@ == data@,
    {
        FontFace { data }
    }
}

/// An object embedded in the text (a picture or a formula), in its encoded form.
#[derive(Debug, Clone)]
pub struct Object {
    pub data: Vec<u8>,
}

/// A hyphenation dictionary, as the bytes it was loaded from.
#[derive(Debug, Clone)]
pub struct Dictionary {
    pub data: Vec<u8>,
}

impl Dictionary {
    pub fn from_data(data: Vec<u8>) -> (r: Dictionary)
        ensures
            r.data@ == data@,
    {
        Dictionary { data }
    }
}

/// The writing direction of a run of text.
pub enum Direction {
    LeftToRight,
    RightToLeft,
}

/// One element of a sequence.
#[derive(Debug, Clone, Copy, PartialEq, Eq, Hash, Structural)]
pub enum Item {
    Word(WordId),
    Symbol(SymbolId),
    Sequence(SequenceId),
    Object(ObjectId),
}

/// The order of two stamps (site first, then time).
pub open spec fn stamp_less(s1: SiteId, v1: u32, s2: SiteId, v2: u32) -> bool {
    s1.0 < s2.0 || (s1.0 == s2.0 && v1 < v2)
}

/// The rank of an item's variant in the order of items.
pub open spec fn item_rank(i: Item) -> int {
    match i {
        Item::Word(_) => 0,
        Item::Symbol(_) => 1,
        Item::Sequence(_) => 2,
        Item::Object(_) => 3,
    }
}

/// The order of items: by variant (words, symbols, sequences, objects),
/// then by key.
pub open spec fn item_less(a: Item, b: Item) -> bool {
    if item_rank(a) != item_rank(b) {
        item_rank(a) < item_rank(b)
    } else {
        match (a, b) {
            (Item::Word(x), Item::Word(y)) => stamp_less(x.0, x.1, y.0, y.1),
            (Item::Symbol(x), Item::Symbol(y)) => stamp_less(x.0, x.1, y.0, y.1),
            (Item::Sequence(x), Item::Sequence(y)) => stamp_less(x.0, x.1, y.0, y.1),
            (Item::Object(x), Item::Object(y)) => stamp_less(x.0, x.1, y.0, y.1),
            _ => false,
        }
    }
}

fn stamp_is_less(s1: SiteId, v1: u32, s2: SiteId, v2: u32) -> (r: bool)
    ensures
        r == stamp_less(s1, v1, s2, v2),
{
    s1.0 < s2.0 || (s1.0 == s2.0 && v1 < v2)
}

fn item_rank_of(i: Item) -> (r: u8)
    ensures
        r == item_rank(i),
{
    match i {
        Item::Word(_) => 0,
        Item::Symbol(_) => 1,
        Item::Sequence(_) => 2,
        Item::Object(_) => 3,
    }
}

/// Decides `item_less`.
pub fn item_is_less(a: Item, b: Item) -> (r: bool)
    ensures
        r == item_less(a, b),
{
    let ra = item_rank_of(a);
    let rb = item_rank_of(b);
    if ra != rb {
        ra < rb
    } else {
        match (a, b) {
            (Item::Word(x), Item::Word(y)) => stamp_is_less(x.0, x.1, y.0, y.1),
            (Item::Symbol(x), Item::Symbol(y)) => stamp_is_less(x.0, x.1, y.0, y.1),
            (Item::Sequence(x), Item::Sequence(y)) => stamp_is_less(x.0, x.1, y.0, y.1),
            (Item::Object(x), Item::Object(y)) => stamp_is_less(x.0, x.1, y.0, y.1),
            _ => false,
        }
    }
}

/// An attribute of content (none are defined yet).
#[derive(Debug, Clone)]
pub struct Attribute;

/// The color of a page.
#[derive(Debug, Clone, Copy)]
pub struct Color;

/// A position in the document: the start of a sequence, an item of a
/// sequence, or the end of a sequence.
#[derive(Debug, Clone, Copy, PartialEq, Eq, Hash, Structural)]
pub enum Tag {
    Start(SequenceId),
    Item(SequenceId, Id),
    End(SequenceId),
}

impl Tag {
    /// The sequence a tag lies in.
    pub open spec fn seq_of(self) -> SequenceId {
        match self {
            Tag::Start(s) => s,
            Tag::Item(s, _) => s,
            Tag::End(s) => s,
        }
    }

    pub fn seq(&self) -> (r: SequenceId)
        ensures
            r == self.seq_of(),
    {
        match *self {
            Tag::Start(s) => s,
            Tag::Item(s, _) => s,
            Tag::End(s) => s,
        }
    }

    pub fn item(&self) -> (r: Option<Id>)
        ensures
            r == (match *self {
                Tag::Item(_, i) => Some(i),
                _ => None,
            }),
    {
        match *self {
            Tag::Item(_, i) => Some(i),
            _ => None,
        }
    }

    pub fn seq_and_item(&self) -> (r: Option<(SequenceId, Id)>)
        ensures
            r == (match *self {
                Tag::Item(s, i) => Some((s, i)),
                _ => None,
            }),
    {
        match *self {
            Tag::Item(s, i) => Some((s, i)),
            _ => None,
        }
    }
}

/// The start or the end of a sequence, as marked on a page.
#[derive(Debug, Clone, Copy, PartialEq, Eq, Hash, Structural)]
pub enum Marker {
    Start(SequenceId),
    End(SequenceId),
}

/// Which part of a word is shown: all of it, the part before a hyphenation
/// point, or the part after it (the point given as a byte index).
#[derive(Debug, Clone, Copy, PartialEq, Eq, Hash, Structural)]
pub enum WordPart {
    Full,
    Before(u16),
    After(u16),
}

/// `a` when `cond` holds, else `b`.
pub fn select<T>(cond: bool, a: T, b: T) -> (r: T)
    ensures
        r == (if cond { a } else { b }),
{
    if cond {
        a
    } else {
        b
    }
}

} // verus!
