//! Editing at a cursor: the cursor stands on a tag, either after it or
//! within the text of a word (at a byte offset); an operation changes the
//! document and tells where the cursor goes next.
use vstd::prelude::*;
use vstd::utf8::{encode_utf8, decode_utf8, is_char_boundary};
use crate::ids::Id;
use crate::keys::{WordId, SequenceId};
use crate::content::{Item, Tag};
use crate::weave::{item_of, index_of, ids_distinct, weave_items, has_id, pos_from, add_slot, AtomOp};
use crate::document::Document;
use crate::chars::{grapheme_starts, grapheme_offsets, char_text};

verus! {

/// An edit of the text at the cursor.
#[derive(Debug, Clone, Copy, PartialEq, Eq, Structural)]
pub enum TextOp {
    Insert(char),
    Split,
    DeletePrevGrapheme,
    DeleteNextGrapheme,
    DeletePrevItem,
    DeleteNextItem,
    NewSequence,
}

/// A move of the cursor.
#[derive(Debug, Clone, Copy, PartialEq, Eq, Structural)]
pub enum CursorOp {
    GraphemeLeft,
    GraphemeRight,
    ItemRight,
    ItemLeft,
}

/// Where the cursor stands on its tag: after it, or within the text of a
/// word, at a byte offset.
#[derive(Debug, Clone, Copy, PartialEq, Eq, Structural)]
pub enum ItemPos {
    After,
    Within(usize),
}

/// The UTF-8 bytes of the text of a word.
pub open spec fn word_bytes(doc: Document, k: WordId) -> Seq<u8> {
    encode_utf8(doc.storage_of().word_map()[k].text@)
}

/// The offset of the next grapheme cluster after the one at `n`, or the
/// end of the text.
pub open spec fn next_grapheme(b: Seq<u8>, n: int) -> int {
    let offs = grapheme_starts(decode_utf8(b.subrange(n, b.len() as int)));
    if offs.len() > 1 {
        n + offs[1]
    } else {
        b.len() as int
    }
}

/// The offset of the grapheme cluster that ends at `n`, or the start.
pub open spec fn prev_grapheme(b: Seq<u8>, n: int) -> int {
    let offs = grapheme_starts(decode_utf8(b.subrange(0, n)));
    if offs.len() > 0 {
        offs.last() as int
    } else {
        0
    }
}

/// The tag comes with the cursor after it.
pub open spec fn after(t: Option<Tag>) -> Option<(Tag, ItemPos)> {
    match t {
        Some(t) => Some((t, ItemPos::After)),
        None => None,
    }
}

/// The cursor can stand there: the tag's sequence is there, an item tag
/// points at an item, a word it points at is there, and an offset within
/// it lies on a character boundary.
pub open spec fn cursor_fits(doc: Document, tag: Tag, pos: ItemPos) -> bool {
    &&& doc.wf()
    &&& doc.storage_of().weave_map().contains_key(tag.seq_of())
    &&& tag matches Tag::Item(_, id) ==> item_of(doc.weave_of(tag.seq_of()).atom_seq(), id) is Some
    &&& doc.storage_of().item_at(tag) matches Some(Item::Word(k)) ==> doc.storage_of().word_map().contains_key(k)
    &&& pos matches ItemPos::Within(n) ==> (doc.storage_of().item_at(tag) matches Some(Item::Word(k)) ==> n
        <= word_bytes(doc, k).len() && is_char_boundary(word_bytes(doc, k), n as int))
}

/// Where a cursor move takes the cursor.
pub open spec fn cursor_result(doc: Document, tag: Tag, pos: ItemPos, op: CursorOp) -> Option<(Tag, ItemPos)> {
    let item = doc.storage_of().item_at(tag);
    match pos {
        ItemPos::Within(n) => match item {
            Some(Item::Word(k)) => {
                let b = word_bytes(doc, k);
                match op {
                    CursorOp::GraphemeRight => if n < b.len() {
                        Some((tag, ItemPos::Within(next_grapheme(b, n as int) as usize)))
                    } else {
                        Some((tag, ItemPos::After))
                    },
                    CursorOp::GraphemeLeft => if n > 0 {
                        Some((tag, ItemPos::Within(prev_grapheme(b, n as int) as usize)))
                    } else {
                        after(doc.previous_tag(tag))
                    },
                    CursorOp::ItemLeft => after(doc.previous_tag(tag)),
                    CursorOp::ItemRight => Some((tag, ItemPos::After)),
                }
            },
            _ => None,
        },
        ItemPos::After => match op {
            CursorOp::GraphemeLeft => match item {
                Some(Item::Word(k)) => Some((tag, ItemPos::Within(word_bytes(doc, k).len() as usize))),
                _ => after(doc.previous_tag(tag)),
            },
            CursorOp::GraphemeRight => match doc.next_tag(tag) {
                Some(t) => match doc.storage_of().item_at(t) {
                    Some(Item::Word(_)) => Some((t, ItemPos::Within(0))),
                    _ => Some((t, ItemPos::After)),
                },
                None => None,
            },
            CursorOp::ItemLeft => after(doc.previous_tag(tag)),
            CursorOp::ItemRight => after(doc.next_tag(tag)),
        },
    }
}

/// The UTF-8 encoding of joined texts is the joined encodings.
pub proof fn lemma_encode_concat(a: Seq<char>, b: Seq<char>)
    ensures
        encode_utf8(a + b) == encode_utf8(a) + encode_utf8(b),
    decreases a.len(),
{
    if a.len() == 0 {
        assert(a + b =~= b);
        assert(encode_utf8(a) + encode_utf8(b) =~= encode_utf8(b));
    } else {
        lemma_encode_concat(a.drop_first(), b);
        assert((a + b).drop_first() =~= a.drop_first() + b);
        assert((a + b)[0] == a[0]);
        assert(encode_utf8(a + b) =~= encode_utf8(a) + encode_utf8(b));
    }
}

/// The text from byte `n` on, at a character boundary.
fn text_from(text: &str, n: usize) -> (r: &str)
    requires
        n <= encode_utf8(text@).len(),
        is_char_boundary(encode_utf8(text@), n as int),
    ensures
        encode_utf8(r@) == encode_utf8(text@).subrange(n as int, encode_utf8(text@).len() as int),
        r@ == decode_utf8(encode_utf8(text@).subrange(n as int, encode_utf8(text@).len() as int)),
{
    let (_, rest) = text.split_at(n);
    proof {
        vstd::utf8::encode_utf8_decode_utf8(rest@);
    }
    rest
}

/// The text up to byte `n`, at a character boundary.
fn text_until(text: &str, n: usize) -> (r: &str)
    requires
        n <= encode_utf8(text@).len(),
        is_char_boundary(encode_utf8(text@), n as int),
    ensures
        encode_utf8(r@) == encode_utf8(text@).subrange(0, n as int),
        r@ == decode_utf8(encode_utf8(text@).subrange(0, n as int)),
{
    let (head, _) = text.split_at(n);
    proof {
        vstd::utf8::encode_utf8_decode_utf8(head@);
    }
    head
}

/// The offset of the next grapheme cluster after the one at `n`.
fn next_grapheme_pos(text: &str, n: usize) -> (r: usize)
    requires
        n < encode_utf8(text@).len(),
        is_char_boundary(encode_utf8(text@), n as int),
    ensures
        r == next_grapheme(encode_utf8(text@), n as int),
        n <= r <= encode_utf8(text@).len(),
        is_char_boundary(encode_utf8(text@), r as int),
{
    let ghost b = encode_utf8(text@);
    proof {
        vstd::utf8::encode_utf8_valid_utf8(text@);
        vstd::utf8::is_char_boundary_start_end_of_seq(b);
    }
    let len = text.as_bytes().len();
    let rest = text_from(text, n);
    let offs = grapheme_offsets(rest);
    if offs.len() > 1 {
        proof {
            lemma_boundary_suffix(b, n as int, offs@[1] as int);
        }
        n + offs[1]
    } else {
        len
    }
}

/// The offset of the grapheme cluster that ends at `n`.
fn prev_grapheme_pos(text: &str, n: usize) -> (r: usize)
    requires
        n <= encode_utf8(text@).len(),
        is_char_boundary(encode_utf8(text@), n as int),
    ensures
        r == prev_grapheme(encode_utf8(text@), n as int),
        r <= n,
        is_char_boundary(encode_utf8(text@), r as int),
{
    let ghost b = encode_utf8(text@);
    proof {
        vstd::utf8::encode_utf8_valid_utf8(text@);
        vstd::utf8::is_char_boundary_start_end_of_seq(b);
    }
    let head = text_until(text, n);
    let offs = grapheme_offsets(head);
    if offs.len() > 0 {
        proof {
            lemma_boundary_prefix(b, n as int, offs@[offs@.len() - 1] as int);
        }
        offs[offs.len() - 1]
    } else {
        0
    }
}

/// Moves the cursor: by a grapheme cluster within a word, or from tag to
/// tag (see `cursor_result`).
pub fn cursor_op(doc: &Document, tag: Tag, pos: ItemPos, op: CursorOp) -> (r: Option<(Tag, ItemPos)>)
    requires
        cursor_fits(*doc, tag, pos),
    ensures
        r == cursor_result(*doc, tag, pos, op),
{
    proof {
        doc.lemma_storage_wf();
    }
    let item = doc.storage().get_item(tag);
    match (pos, item) {
        (ItemPos::Within(n), Some(Item::Word(word_key))) => {
            let text = doc.storage().get_word(word_key).text.as_str();
            match op {
                CursorOp::GraphemeRight => {
                    if n < text.as_bytes().len() {
                        Some((tag, ItemPos::Within(next_grapheme_pos(text, n))))
                    } else {
                        Some((tag, ItemPos::After))
                    }
                },
                CursorOp::GraphemeLeft => {
                    if n > 0 {
                        Some((tag, ItemPos::Within(prev_grapheme_pos(text, n))))
                    } else {
                        let prev_tag = doc.get_previous_tag(tag)?;
                        Some((prev_tag, ItemPos::After))
                    }
                },
                CursorOp::ItemLeft => {
                    let prev_tag = doc.get_previous_tag(tag)?;
                    Some((prev_tag, ItemPos::After))
                },
                CursorOp::ItemRight => Some((tag, ItemPos::After)),
            }
        },
        (ItemPos::After, _) => {
            match op {
                CursorOp::GraphemeLeft => {
                    match item {
                        Some(Item::Word(id)) => {
                            let text = doc.storage().get_word(id).text.as_str();
                            Some((tag, ItemPos::Within(text.as_bytes().len())))
                        },
                        _ => {
                            let prev_tag = doc.get_previous_tag(tag)?;
                            Some((prev_tag, ItemPos::After))
                        },
                    }
                },
                CursorOp::GraphemeRight => {
                    let next_tag = doc.get_next_tag(tag)?;
                    match doc.storage().get_item(next_tag) {
                        Some(Item::Word(_)) => Some((next_tag, ItemPos::Within(0))),
                        _ => Some((next_tag, ItemPos::After)),
                    }
                },
                CursorOp::ItemLeft => {
                    let left_tag = doc.get_previous_tag(tag)?;
                    Some((left_tag, ItemPos::After))
                },
                CursorOp::ItemRight => {
                    let right_tag = doc.get_next_tag(tag)?;
                    Some((right_tag, ItemPos::After))
                },
            }
        },
        _ => None,
    }
}

/// Whether an edit can be made: the cursor fits, the clocks have room for
/// what the edit creates, a word before the cursor is there, the tag an
/// item deletion removes is an item, and a new sequence does not take the
/// id of the sequence it goes into.
pub open spec fn text_op_fits(doc: Document, tag: Tag, pos: ItemPos, op: TextOp) -> bool {
    &&& cursor_fits(doc, tag, pos)
    &&& doc.storage_of().word_clock() + 2 <= u32::MAX
    &&& doc.storage_of().weave_clock() + 1 <= u32::MAX
    &&& doc.weave_of(tag.seq_of()).now() + 2 <= u32::MAX
    &&& (doc.previous_tag(tag) matches Some(pt) ==> (doc.storage_of().item_at(pt) matches Some(Item::Word(pk))
        ==> doc.storage_of().word_map().contains_key(pk)))
    &&& (pos == ItemPos::After && op == TextOp::DeletePrevItem ==> !(tag is End))
    &&& (pos == ItemPos::After && op == TextOp::DeleteNextItem ==> (doc.next_tag_within(tag) matches Some(nt)
        ==> nt is Item))
    &&& (pos == ItemPos::After && op == TextOp::NewSequence && tag is Item ==> SequenceId(
        doc.site_of(),
        doc.storage_of().weave_clock() as u32,
    ) != tag.seq_of())
}

/// `new` is `old` after the text of the word at `tag` became the bytes
/// `nb`, the cursor going to `np` in it: where nothing is left the item is
/// removed and the cursor goes after the tag before (nothing happens where
/// there is none); otherwise the item is replaced by the word of that text.
pub open spec fn word_edited(old: Document, new: Document, tag: Tag, nb: Seq<u8>, np: int, r: Option<(Tag, ItemPos)>) -> bool {
    if nb.len() == 0 {
        match old.previous_tag(tag) {
            Some(pt) => new.removed(&old, tag) && r == Some((pt, ItemPos::After)),
            None => new == old && r is None,
        }
    } else {
        exists|mid: Document, id: WordId, t: Tag|
            #![trigger mid.word_created(&old, decode_utf8(nb), id), new.replaced(&mid, tag, Item::Word(id), t)]
            mid.word_created(&old, decode_utf8(nb), id) && new.replaced(&mid, tag, Item::Word(id), t) && r == Some(
                (t, ItemPos::Within(np as usize)),
            )
    }
}

/// `new` is `old` after the word at `tag`, with bytes `b`, was split at `n`:
/// the item replaced by the word before `n`, the word after `n` inserted
/// after it, and the cursor after the first.
pub open spec fn word_split(old: Document, new: Document, tag: Tag, b: Seq<u8>, n: int, r: Option<(Tag, ItemPos)>) -> bool {
    exists|m1: Document, m2: Document, m3: Document, lid: WordId, rid: WordId, lt: Tag, rt: Tag|
        #![trigger m1.word_created(&old, decode_utf8(b.subrange(0, n)), lid), m2.word_created(&m1, decode_utf8(b.subrange(n, b.len() as int)), rid), m3.replaced(&m2, tag, Item::Word(lid), lt), new.inserted(&m3, lt, Item::Word(rid), rt)]
        m1.word_created(&old, decode_utf8(b.subrange(0, n)), lid) && m2.word_created(
            &m1,
            decode_utf8(b.subrange(n, b.len() as int)),
            rid,
        ) && m3.replaced(&m2, tag, Item::Word(lid), lt) && new.inserted(&m3, lt, Item::Word(rid), rt) && r == Some(
            (lt, ItemPos::After),
        )
}

/// `new` is `old` after the word at `tag`, with bytes `b`, was joined to
/// the word before it: that item replaced by the word of both texts, the
/// item at `tag` removed, the cursor where the two met.  Where the tag
/// before is no word (or there is none), nothing happens.
pub open spec fn words_joined(old: Document, new: Document, tag: Tag, b: Seq<u8>, r: Option<(Tag, ItemPos)>) -> bool {
    match old.previous_tag(tag) {
        Some(pt) => match old.storage_of().item_at(pt) {
            Some(Item::Word(pk)) => {
                let pb = word_bytes(old, pk);
                exists|m1: Document, m2: Document, id: WordId, t: Tag|
                    #![trigger m1.word_created(&old, decode_utf8(pb + b), id), m2.replaced(&m1, pt, Item::Word(id), t), new.removed(&m2, tag)]
                    m1.word_created(&old, decode_utf8(pb + b), id) && m2.replaced(&m1, pt, Item::Word(id), t)
                        && new.removed(&m2, tag) && r == Some((t, ItemPos::Within(pb.len() as usize)))
            },
            _ => new == old && r is None,
        },
        None => new == old && r is None,
    }
}

/// `new` is `old` after the word of the one character `c` was inserted
/// after `tag`; the cursor goes to the end of it.
pub open spec fn char_inserted(old: Document, new: Document, tag: Tag, c: char, r: Option<(Tag, ItemPos)>) -> bool {
    exists|m1: Document, id: WordId, t: Tag|
        #![trigger m1.word_created(&old, seq![c], id), new.inserted(&m1, tag, Item::Word(id), t)]
        m1.word_created(&old, seq![c], id) && new.inserted(&m1, tag, Item::Word(id), t) && r == Some(
            (t, ItemPos::Within(encode_utf8(seq![c]).len() as usize)),
        )
}

/// `new` is `old` after a new sequence of the type of the sequence of `tag`
/// was inserted after `tag`; the cursor goes to its start.
pub open spec fn sequence_inserted(old: Document, new: Document, tag: Tag, r: Option<(Tag, ItemPos)>) -> bool {
    exists|m1: Document, sid: SequenceId, t: Tag|
        #![trigger m1.seq_created(&old, old.weave_of(tag.seq_of()).type_of(), sid), new.inserted(&m1, tag, Item::Sequence(sid), t)]
        m1.seq_created(&old, old.weave_of(tag.seq_of()).type_of(), sid) && new.inserted(&m1, tag, Item::Sequence(sid), t)
            && r == Some((Tag::Start(sid), ItemPos::After))
}

/// What an edit does to the document and where it takes the cursor.
pub open spec fn text_op_done(old: Document, new: Document, tag: Tag, pos: ItemPos, op: TextOp, r: Option<(Tag, ItemPos)>) -> bool {
    match pos {
        ItemPos::Within(n) => match old.storage_of().item_at(tag) {
            Some(Item::Word(k)) => {
                let b = word_bytes(old, k);
                match op {
                    TextOp::DeletePrevGrapheme => if n > 0 {
                        let np = prev_grapheme(b, n as int);
                        word_edited(old, new, tag, b.subrange(0, np) + b.subrange(n as int, b.len() as int), np, r)
                    } else {
                        words_joined(old, new, tag, b, r)
                    },
                    TextOp::DeleteNextGrapheme => if n < b.len() {
                        let np = next_grapheme(b, n as int);
                        word_edited(old, new, tag, b.subrange(0, n as int) + b.subrange(np, b.len() as int), n as int, r)
                    } else {
                        new == old && r is None
                    },
                    TextOp::Insert(c) => word_edited(
                        old,
                        new,
                        tag,
                        b.subrange(0, n as int) + encode_utf8(seq![c]) + b.subrange(n as int, b.len() as int),
                        n + encode_utf8(seq![c]).len(),
                        r,
                    ),
                    TextOp::Split => if 0 < n < b.len() {
                        word_split(old, new, tag, b, n as int, r)
                    } else if n == 0 {
                        new == old && r == after(old.previous_tag(tag))
                    } else {
                        new == old && r == Some((tag, ItemPos::After))
                    },
                    _ => new == old && r is None,
                }
            },
            _ => new == old && r is None,
        },
        ItemPos::After => match op {
            TextOp::DeletePrevItem => match old.previous_tag_within(tag) {
                Some(pt) => new.removed(&old, tag) && r == Some((pt, ItemPos::After)),
                None => new == old && r is None,
            },
            TextOp::DeleteNextItem => match old.next_tag_within(tag) {
                Some(nt) => new.removed(&old, nt) && r == Some((tag, ItemPos::After)),
                None => new == old && r is None,
            },
            TextOp::Insert(c) => if tag is Item {
                char_inserted(old, new, tag, c, r)
            } else {
                new == old && r is None
            },
            TextOp::DeletePrevGrapheme => match old.storage_of().item_at(tag) {
                Some(Item::Word(k)) => new == old && r == Some((tag, ItemPos::Within(word_bytes(old, k).len() as usize))),
                _ => new == old && r is None,
            },
            TextOp::NewSequence => if tag is Item {
                sequence_inserted(old, new, tag, r)
            } else {
                new == old && r is None
            },
            _ => new == old && r is None,
        },
    }
}

/// The two texts joined.
fn join_text(a: &str, b: &str) -> (r: String)
    ensures
        r@ == a@ + b@,
        encode_utf8(r@) == encode_utf8(a@) + encode_utf8(b@),
{
    let mut r = String::from_str(a);
    r.append(b);
    proof {
        lemma_encode_concat(a@, b@);
    }
    r
}

/// An id of an entry of a weave's items is the id of an atom there.
proof fn lemma_entry_has_atom(doc: Document, s: SequenceId, e: (Id, Item))
    requires
        doc.weave_of(s).item_seq().contains(e),
    ensures
        index_of(doc.weave_of(s).atom_seq(), e.0) >= 0,
{
    crate::weave::lemma_items_have_atoms(doc.weave_of(s).atom_seq());
    let k = choose|k: int| 0 <= k < doc.weave_of(s).item_seq().len() && doc.weave_of(s).item_seq()[k] == e;
    assert(doc.weave_of(s).item_seq()[k].0 == e.0);
}

/// The atom just added to a weave is there.
proof fn lemma_added_atom_there(new: Document, old: Document, s: SequenceId, a: crate::weave::Atom)
    requires
        new.atom_added(&old, s, a),
    ensures
        index_of(new.weave_of(s).atom_seq(), a.id) >= 0,
{
    let w0 = old.weave_of(s).atom_seq();
    let p = crate::weave::add_slot(w0, a);
    crate::weave::lemma_index_from_found(new.weave_of(s).atom_seq(), a.id, 0);
    assert(new.weave_of(s).atom_seq()[p].id == a.id);
}

/// Gives the word at `tag` the text `new_text`, the cursor going to `np`
/// (see `word_edited`).
fn edit_word(doc: &mut Document, tag: Tag, new_text: String, np: usize) -> (r: Option<(Tag, ItemPos)>)
    requires
        old(doc).wf(),
        old(doc).storage_of().weave_map().contains_key(tag.seq_of()),
        tag matches Tag::Item(_, id) && item_of(old(doc).weave_of(tag.seq_of()).atom_seq(), id) is Some,
        old(doc).weave_of(tag.seq_of()).now() < u32::MAX,
        old(doc).storage_of().word_clock() < u32::MAX,
    ensures
        word_edited(*old(doc), *final(doc), tag, encode_utf8(new_text@), np as int, r),
{
    proof {
        vstd::utf8::encode_utf8_decode_utf8(new_text@);
    }
    if new_text.as_str().as_bytes().len() == 0 {
        let prev_tag = doc.get_previous_tag(tag)?;
        doc.remove(tag);
        Some((prev_tag, ItemPos::After))
    } else {
        let ghost d0 = *doc;
        let id = doc.create_word(new_text.as_str());
        let ghost d1 = *doc;
        let t = doc.replace(tag, Item::Word(id));
        assert(d1.word_created(&d0, decode_utf8(encode_utf8(new_text@)), id) && doc.replaced(&d1, tag, Item::Word(id), t));
        Some((t, ItemPos::Within(np)))
    }
}

/// Splits the word at `tag`, whose text is `text`, at byte `n` (see
/// `word_split`).
fn split_word(doc: &mut Document, tag: Tag, text: &str, n: usize) -> (r: Option<(Tag, ItemPos)>)
    requires
        old(doc).wf(),
        old(doc).storage_of().weave_map().contains_key(tag.seq_of()),
        tag matches Tag::Item(_, id) && item_of(old(doc).weave_of(tag.seq_of()).atom_seq(), id) is Some,
        old(doc).weave_of(tag.seq_of()).now() + 2 <= u32::MAX,
        old(doc).storage_of().word_clock() + 2 <= u32::MAX,
        0 < n < encode_utf8(text@).len(),
        is_char_boundary(encode_utf8(text@), n as int),
    ensures
        word_split(*old(doc), *final(doc), tag, encode_utf8(text@), n as int, r),
{
    let ghost b = encode_utf8(text@);
    let left_text = text_until(text, n).to_owned();
    let right_text = text_from(text, n).to_owned();
    let ghost d0 = *doc;
    let left = doc.create_word(left_text.as_str());
    let ghost d1 = *doc;
    let right = doc.create_word(right_text.as_str());
    let ghost d2 = *doc;
    let left_tag = doc.replace(tag, Item::Word(left));
    let ghost d3 = *doc;
    proof {
        lemma_added_atom_there(d3, d2, tag.seq_of(), d2.next_atom(tag.seq_of(), Document::prev_of(tag), crate::weave::AtomOp::Replace(Item::Word(left))));
    }
    let right_tag = doc.insert(left_tag, Item::Word(right));
    assert(d1.word_created(&d0, decode_utf8(b.subrange(0, n as int)), left) && d2.word_created(
        &d1,
        decode_utf8(b.subrange(n as int, b.len() as int)),
        right,
    ) && d3.replaced(&d2, tag, Item::Word(left), left_tag) && doc.inserted(&d3, left_tag, Item::Word(right), right_tag));
    Some((left_tag, ItemPos::After))
}

/// Joins the word at `tag`, whose text is `text`, to the word before it
/// (see `words_joined`).
fn join_words(doc: &mut Document, tag: Tag, text: &str) -> (r: Option<(Tag, ItemPos)>)
    requires
        old(doc).wf(),
        old(doc).storage_of().weave_map().contains_key(tag.seq_of()),
        tag matches Tag::Item(_, id) && item_of(old(doc).weave_of(tag.seq_of()).atom_seq(), id) is Some,
        old(doc).weave_of(tag.seq_of()).now() + 2 <= u32::MAX,
        old(doc).storage_of().word_clock() < u32::MAX,
        old(doc).previous_tag(tag) matches Some(pt) ==> (old(doc).storage_of().item_at(pt) matches Some(Item::Word(pk))
            ==> old(doc).storage_of().word_map().contains_key(pk)),
    ensures
        words_joined(*old(doc), *final(doc), tag, encode_utf8(text@), r),
{
    proof {
        doc.lemma_storage_wf();
    }
    let ghost d0 = *doc;
    let prev_tag = doc.get_previous_tag(tag)?;
    match doc.storage().get_item(prev_tag) {
        Some(Item::Word(pk)) => {
            let prev_text = doc.storage().get_word(pk).text.clone();
            let new_pos = prev_text.as_str().as_bytes().len();
            let new_text = join_text(prev_text.as_str(), text);
            proof {
                vstd::utf8::encode_utf8_decode_utf8(new_text@);
                // the tag before is an entry of the same sequence
                let s = tag.seq_of();
                let v = d0.weave_of(s).item_seq();
                let id = match tag { Tag::Item(_, i) => i, _ => Id::null_spec() };
                crate::weave::lemma_pos_from_bounds(v, id, 1);
                let k = crate::weave::pos_from(v, id, 1);
                assert(v.contains(v[k - 1]));
                lemma_entry_has_atom(d0, s, v[k - 1]);
            }
            let id = doc.create_word(new_text.as_str());
            let ghost d1 = *doc;
            let t = doc.replace(prev_tag, Item::Word(id));
            let ghost d2 = *doc;
            proof {
                let s = tag.seq_of();
                let tid = match tag { Tag::Item(_, i) => i, _ => Id::null_spec() };
                let a = d1.next_atom(s, Document::prev_of(prev_tag), crate::weave::AtomOp::Replace(Item::Word(id)));
                crate::weave::lemma_insert_keeps_ids(d1.weave_of(s).atom_seq(), crate::weave::add_slot(d1.weave_of(s).atom_seq(), a), a, tid);
            }
            doc.remove(tag);
            assert(d1.word_created(&d0, decode_utf8(encode_utf8(prev_text@) + encode_utf8(text@)), id) && d2.replaced(
                &d1,
                prev_tag,
                Item::Word(id),
                t,
            ) && doc.removed(&d2, tag));
            assert(prev_text@ == d0.storage_of().word_map()[pk].text@);
            assert(d0.storage_of().item_at(prev_tag) == Some(Item::Word(pk)));
            assert(d0.previous_tag(tag) == Some(prev_tag));
            assert(decode_utf8(encode_utf8(prev_text@) + encode_utf8(text@)) == decode_utf8(word_bytes(d0, pk) + encode_utf8(text@)));
            assert(d1.word_created(&d0, decode_utf8(word_bytes(d0, pk) + encode_utf8(text@)), id));
            Some((t, ItemPos::Within(new_pos)))
        },
        _ => None,
    }
}

/// Edits the document at the cursor and tells where the cursor goes (see
/// `text_op_done`): within a word, a character is inserted, a grapheme
/// cluster deleted (joining with the word before at its start), or the
/// word split; after a tag, the item before or after is deleted, a word of
/// one character or a new sequence inserted, or the cursor put at the end
/// of the word.
pub fn text_op(doc: &mut Document, tag: Tag, pos: ItemPos, op: TextOp) -> (r: Option<(Tag, ItemPos)>)
    requires
        text_op_fits(*old(doc), tag, pos, op),
    ensures
        text_op_done(*old(doc), *final(doc), tag, pos, op, r),
{
    proof {
        doc.lemma_storage_wf();
    }
    let ghost d0 = *doc;
    match pos {
        ItemPos::Within(n) => {
            match doc.storage().get_item(tag) {
                Some(Item::Word(word_key)) => {
                    let text = doc.storage().get_word(word_key).text.clone();
                    let len = text.as_str().as_bytes().len();
                    let ghost b = encode_utf8(text@);
                    match op {
                        TextOp::DeletePrevGrapheme => {
                            if n > 0 {
                                let new_pos = prev_grapheme_pos(text.as_str(), n);
                                let new_text = join_text(text_until(text.as_str(), new_pos), text_from(text.as_str(), n));
                                edit_word(doc, tag, new_text, new_pos)
                            } else {
                                join_words(doc, tag, text.as_str())
                            }
                        },
                        TextOp::DeleteNextGrapheme => {
                            if n < len {
                                let new_pos = next_grapheme_pos(text.as_str(), n);
                                let new_text = join_text(text_until(text.as_str(), n), text_from(text.as_str(), new_pos));
                                edit_word(doc, tag, new_text, n)
                            } else {
                                None
                            }
                        },
                        TextOp::Insert(c) => {
                            let ct = char_text(c);
                            let head = join_text(text_until(text.as_str(), n), ct.as_str());
                            let new_text = join_text(head.as_str(), text_from(text.as_str(), n));
                            let step = ct.as_str().as_bytes().len();
                            let total = new_text.as_str().as_bytes().len();
                            proof {
                                assert(encode_utf8(head@).len() == n + step);
                                assert(n + step <= total);
                            }
                            edit_word(doc, tag, new_text, n + step)
                        },
                        TextOp::Split => {
                            if n > 0 && n < len {
                                split_word(doc, tag, text.as_str(), n)
                            } else if n == 0 {
                                let prev_tag = doc.get_previous_tag(tag)?;
                                Some((prev_tag, ItemPos::After))
                            } else {
                                Some((tag, ItemPos::After))
                            }
                        },
                        _ => None,
                    }
                },
                _ => None,
            }
        },
        ItemPos::After => {
            let valid_insert = tag.item().is_some();
            match op {
                TextOp::DeletePrevItem => {
                    let prev_tag = doc.get_previous_tag_bounded(tag)?;
                    doc.remove(tag);
                    Some((prev_tag, ItemPos::After))
                },
                TextOp::DeleteNextItem => {
                    let next_tag = doc.get_next_tag_bounded(tag)?;
                    proof {
                        lemma_next_within_has_atom(d0, tag);
                    }
                    doc.remove(next_tag);
                    Some((tag, ItemPos::After))
                },
                TextOp::Insert(c) => {
                    if valid_insert {
                        let new_text = char_text(c);
                        let id = doc.create_word(new_text.as_str());
                        let ghost d1 = *doc;
                        let t = doc.insert(tag, Item::Word(id));
                        assert(d1.word_created(&d0, seq![c], id) && doc.inserted(&d1, tag, Item::Word(id), t));
                        Some((t, ItemPos::Within(new_text.as_str().as_bytes().len())))
                    } else {
                        None
                    }
                },
                TextOp::DeletePrevGrapheme => {
                    match doc.storage().get_item(tag) {
                        Some(Item::Word(id)) => {
                            let text = doc.storage().get_word(id).text.as_str();
                            Some((tag, ItemPos::Within(text.as_bytes().len())))
                        },
                        _ => None,
                    }
                },
                TextOp::NewSequence => {
                    if valid_insert {
                        let typ = doc.storage().get_weave(tag.seq()).typ();
                        let id = doc.crate_seq(typ);
                        let ghost d1 = *doc;
                        let t = doc.insert(tag, Item::Sequence(id));
                        assert(d1.seq_created(&d0, d0.weave_of(tag.seq_of()).type_of(), id) && doc.inserted(
                            &d1,
                            tag,
                            Item::Sequence(id),
                            t,
                        ));
                        Some((Tag::Start(id), ItemPos::After))
                    } else {
                        None
                    }
                },
                _ => None,
            }
        },
    }
}

/// The item after a tag within its sequence, where it is an item, is that
/// of an atom there.
proof fn lemma_next_within_has_atom(doc: Document, tag: Tag)
    requires
        doc.next_tag_within(tag) matches Some(nt) && nt is Item,
    ensures
        doc.next_tag_within(tag) matches Some(Tag::Item(s, id)) && s == tag.seq_of() && index_of(
            doc.weave_of(s).atom_seq(),
            id,
        ) >= 0,
{
    let s = tag.seq_of();
    let v = doc.weave_of(s).item_seq();
    let e = match tag {
        Tag::Start(_) => crate::document::first_entry(v),
        Tag::Item(_, id) => crate::weave::next_of(v, id),
        Tag::End(_) => None,
    };
    match e {
        Some(x) => {
            match tag {
                Tag::Start(_) => {
                    assert(v.contains(v[0]));
                },
                Tag::Item(_, id) => {
                    crate::weave::lemma_pos_from_bounds(v, id, 0);
                    let k = crate::weave::pos_from(v, id, 0);
                    assert(v.contains(v[k + 1]));
                },
                _ => {},
            }
            assert(v.contains(x));
            lemma_entry_has_atom(doc, s, x);
        },
        None => {},
    }
}

/// Where `n` is a boundary of valid bytes, a boundary of the bytes before
/// `n` is one of all of them.
proof fn lemma_boundary_prefix(b: Seq<u8>, n: int, k: int)
    requires
        vstd::utf8::valid_utf8(b),
        0 <= n <= b.len(),
        is_char_boundary(b, n),
        0 <= k <= n,
        is_char_boundary(b.subrange(0, n), k),
    ensures
        is_char_boundary(b, k),
{
    vstd::utf8::valid_utf8_split(b, n);
    if k < n {
        vstd::utf8::is_char_boundary_iff_not_is_continuation_byte(b.subrange(0, n), k);
        vstd::utf8::is_char_boundary_iff_not_is_continuation_byte(b, k);
        assert(b.subrange(0, n)[k] == b[k]);
    }
}

/// Where `n` is a boundary of valid bytes, a boundary `k` of the bytes from
/// `n` on is the boundary `n + k` of all of them.
proof fn lemma_boundary_suffix(b: Seq<u8>, n: int, k: int)
    requires
        vstd::utf8::valid_utf8(b),
        0 <= n <= b.len(),
        is_char_boundary(b, n),
        0 <= k <= b.len() - n,
        is_char_boundary(b.subrange(n, b.len() as int), k),
    ensures
        is_char_boundary(b, n + k),
{
    vstd::utf8::valid_utf8_split(b, n);
    if n + k < b.len() {
        if k == 0 {
        } else {
            vstd::utf8::is_char_boundary_iff_not_is_continuation_byte(b.subrange(n, b.len() as int), k);
            vstd::utf8::is_char_boundary_iff_not_is_continuation_byte(b, n + k);
            assert(b.subrange(n, b.len() as int)[k] == b[n + k]);
        }
    } else {
        vstd::utf8::is_char_boundary_start_end_of_seq(b);
    }
}


/// The id the weave of `seq` gives the `c`-th atom this site creates next.
pub open spec fn next_id(d: Document, seq: SequenceId, c: int) -> Id {
    Id { site: d.site_of(), clock: (d.weave_of(seq).now() + c) as u32 }
}

/// The weave of the tag's sequence has atoms with distinct ids, renders the
/// item of the tag (whose id is not the null id), and the next `count` ids
/// this site creates there are new (and not the null id).
pub open spec fn edit_in_place(d: Document, tag: Tag, count: int) -> bool {
    let seq = tag.seq_of();
    let s = d.weave_of(seq).atom_seq();
    &&& tag is Item
    &&& Document::prev_of(tag) != Id::null_spec()
    &&& ids_distinct(s)
    &&& exists|x: int| 0 <= x < weave_items(s).len() && (#[trigger] weave_items(s)[x]).0 == Document::prev_of(tag)
    &&& d.weave_of(seq).now() + count <= u32::MAX
    &&& forall|c: int| 0 <= c < count ==> !has_id(s, #[trigger] next_id(d, seq, c)) && next_id(d, seq, c) != Id::null_spec()
}

/// Editing the text of a word, where some text is left, puts the word of
/// the new text in the old word's place among the rendered items, under the
/// tag the cursor goes to; the other items stay.  Where the document's
/// indexes are sound, that word has the new text.
pub proof fn lemma_word_edit_in_place(old: Document, new: Document, tag: Tag, nb: Seq<u8>, np: int, r: Option<(Tag, ItemPos)>)
    requires
        old.wf(),
        old.storage_of().weave_map().contains_key(tag.seq_of()),
        word_edited(old, new, tag, nb, np, r),
        nb.len() > 0,
        edit_in_place(old, tag, 1),
    ensures
        ({
            let v = old.weave_of(tag.seq_of()).item_seq();
            let n = pos_from(v, Document::prev_of(tag), 0);
            &&& 0 <= n < v.len()
            &&& r matches Some((t, p)) && p == ItemPos::Within(np as usize) && t == Tag::Item(tag.seq_of(), t->1)
            &&& exists|k: WordId| #![trigger v.update(n, (((r->0).0)->1, Item::Word(k)))]
                new.weave_of(tag.seq_of()).item_seq() == v.update(n, (((r->0).0)->1, Item::Word(k)))
                && (old.indexes_sound() ==> new.storage_of().word_map().contains_key(k)
                    && new.storage_of().word_map()[k].text@ == decode_utf8(nb))
        }),
{
    let seq = tag.seq_of();
    let (mid, id, t) = choose|mid: Document, id: WordId, t: Tag|
        mid.word_created(&old, decode_utf8(nb), id) && new.replaced(&mid, tag, Item::Word(id), t) && r == Some(
            (t, ItemPos::Within(np as usize)),
        );
    assert(mid.storage_of().weave_map() == old.storage_of().weave_map());
    assert(mid.weave_of(seq) == old.weave_of(seq));
    assert(next_id(old, seq, 0) == mid.next_atom(seq, Document::prev_of(tag), AtomOp::Replace(Item::Word(id))).id);
    crate::document::lemma_replace_in_place(mid, new, tag, Item::Word(id), t);
    assert(new.storage_of().word_map() == mid.storage_of().word_map());
    let v = old.weave_of(seq).item_seq();
    let p = pos_from(v, Document::prev_of(tag), 0);
    assert(((r->0).0)->1 == t->1);
    assert(new.weave_of(seq).item_seq() == v.update(p, (((r->0).0)->1, Item::Word(id))));
    assert(old.indexes_sound() ==> new.storage_of().word_map().contains_key(id)
        && new.storage_of().word_map()[id].text@ == decode_utf8(nb));
}

/// Splitting a word inside its text puts the word before the split in the
/// old word's place among the rendered items, under the tag the cursor
/// goes to, and the word after the split right after it; the other items
/// stay.  Where the document's indexes are sound, the two words have the
/// two parts of the text.
pub proof fn lemma_word_split_in_place(old: Document, new: Document, tag: Tag, b: Seq<u8>, n: int, r: Option<(Tag, ItemPos)>)
    requires
        old.wf(),
        old.storage_of().weave_map().contains_key(tag.seq_of()),
        word_split(old, new, tag, b, n, r),
        edit_in_place(old, tag, 2),
    ensures
        ({
            let v = old.weave_of(tag.seq_of()).item_seq();
            let p = pos_from(v, Document::prev_of(tag), 0);
            &&& 0 <= p < v.len()
            &&& r matches Some((lt, ItemPos::After)) && lt == Tag::Item(tag.seq_of(), lt->1)
            &&& exists|lk: WordId, rid: Id, rk: WordId| #![trigger v.update(p, (((r->0).0)->1, Item::Word(lk))).insert(p + 1, (rid, Item::Word(rk)))]
                new.weave_of(tag.seq_of()).item_seq() == v.update(p, (((r->0).0)->1, Item::Word(lk))).insert(
                    p + 1,
                    (rid, Item::Word(rk)),
                )
                && (old.indexes_sound() ==> new.storage_of().word_map().contains_key(lk)
                    && new.storage_of().word_map()[lk].text@ == decode_utf8(b.subrange(0, n))
                    && new.storage_of().word_map().contains_key(rk)
                    && new.storage_of().word_map()[rk].text@ == decode_utf8(b.subrange(n, b.len() as int)))
        }),
{
    let seq = tag.seq_of();
    let left = decode_utf8(b.subrange(0, n));
    let right = decode_utf8(b.subrange(n, b.len() as int));
    let (m1, m2, m3, lid, rid, lt, rt) = choose|m1: Document, m2: Document, m3: Document, lid: WordId, rid: WordId, lt: Tag, rt: Tag|
        m1.word_created(&old, left, lid) && m2.word_created(&m1, right, rid)
            && m3.replaced(&m2, tag, Item::Word(lid), lt) && new.inserted(&m3, lt, Item::Word(rid), rt)
            && r == Some((lt, ItemPos::After));
    assert(m2.weave_of(seq) == old.weave_of(seq));
    let s = old.weave_of(seq).atom_seq();
    let a1 = m2.next_atom(seq, Document::prev_of(tag), AtomOp::Replace(Item::Word(lid)));
    assert(a1.id == next_id(old, seq, 0));
    crate::document::lemma_replace_in_place(m2, m3, tag, Item::Word(lid), lt);
    let v = old.weave_of(seq).item_seq();
    let p = pos_from(v, Document::prev_of(tag), 0);
    // the replacement's entry is rendered, and the added word goes right after it
    let s3 = m3.weave_of(seq).atom_seq();
    assert(s3 == s.insert(add_slot(s, a1), a1));
    crate::weave::lemma_insert_keeps_distinct(s, add_slot(s, a1), a1);
    m3.lemma_storage_wf();
    old.lemma_weave_closed(seq);
    m3.lemma_weave_closed(seq);
    old.weave_of(seq).lemma_now_range();
    crate::weave::lemma_no_refs(s, a1.id);
    let a2 = m3.next_atom(seq, a1.id, AtomOp::Add(Item::Word(rid)));
    assert(a2.id == next_id(old, seq, 1));
    assert(lt == Tag::Item(seq, a1.id));
    assert(Document::prev_of(lt) == a1.id);
    assert(weave_items(s3)[p] == (a1.id, Item::Word(lid)));
    assert forall|i: int| 0 <= i < s3.len() implies (#[trigger] s3[i]).prev != a2.prev by {
        let k = add_slot(s, a1);
        if i < k {
            assert(s3[i] == s[i]);
        } else if i > k {
            assert(s3[i] == s[i - 1]);
        } else {
            assert(s3[i] == a1);
            assert(has_id(s, a1.prev)) by {
                crate::weave::lemma_items_have_atoms(s);
                let x = choose|x: int| 0 <= x < weave_items(s).len() && (#[trigger] weave_items(s)[x]).0 == Document::prev_of(tag);
                assert(index_of(s, weave_items(s)[x].0) >= 0);
                crate::weave::lemma_index_from_bounds(s, a1.prev, 0);
                assert(s[index_of(s, a1.prev)].id == a1.prev);
            }
        }
    }
    assert(!has_id(s3, a2.id)) by {
        if has_id(s3, a2.id) {
            let j = choose|j: int| 0 <= j < s3.len() && #[trigger] s3[j].id == a2.id;
            let k = add_slot(s, a1);
            if j < k {
                assert(s3[j] == s[j]);
            } else if j > k {
                assert(s3[j] == s[j - 1]);
            } else {
                assert(s3[j] == a1);
                assert(a1.id != a2.id);
            }
        }
    }
    crate::weave::lemma_add_after_fresh(s3, a2, Item::Word(rid));
    crate::weave::lemma_rendered_at(s3, a1.id, p);
    assert(new.weave_of(seq).item_seq() == weave_items(s3).insert(p + 1, (a2.id, Item::Word(rid))));
    assert(new.storage_of().word_map() == m2.storage_of().word_map());
    if old.indexes_sound() {
        assert(m1.indexes_sound());
        assert(m1.storage_of().word_map()[lid].text@ == left);
        if !m1.word_index().contains_key(right) {
            reveal(Document::own_keys_fresh);
            m1.storage_of().lemma_clock_ranges();
            assert(m1.storage_of().word_map().contains_key(lid));
            assert(lid != rid);
        }
    }
}

/// Moving right by a grapheme from after a tag goes to the next tag, if
/// there is one: into the text of a word (at its start), or after any
/// other item, the start or the end of a sequence.  The cursor always
/// moves on: it comes to rest on the next tag, not on the one it left.
/// Moving by an item from after a tag goes to after the next (previous)
/// tag, if there is one.
pub proof fn lemma_grapheme_right_after(doc: Document, tag: Tag)
    ensures
        doc.next_tag(tag) is None ==> cursor_result(doc, tag, ItemPos::After, CursorOp::GraphemeRight) is None,
        doc.next_tag(tag) matches Some(t) ==> {
            let r = cursor_result(doc, tag, ItemPos::After, CursorOp::GraphemeRight);
            &&& r is Some
            &&& (r->0).0 == t
            &&& ((r->0).1 == ItemPos::Within(0) <==> doc.storage_of().item_at(t) matches Some(Item::Word(_)))
            &&& ((r->0).1 == ItemPos::After <==> !(doc.storage_of().item_at(t) matches Some(Item::Word(_))))
        },
        cursor_result(doc, tag, ItemPos::After, CursorOp::ItemRight) == (match doc.next_tag(tag) {
            Some(t) => Some((t, ItemPos::After)),
            None => None,
        }),
        cursor_result(doc, tag, ItemPos::After, CursorOp::ItemLeft) == (match doc.previous_tag(tag) {
            Some(t) => Some((t, ItemPos::After)),
            None => None,
        }),
{
}

} // verus!
