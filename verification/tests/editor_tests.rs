use grafeia_core::ids::SiteId;
use grafeia_core::keys::SequenceId;
use grafeia_core::content::{Item, Tag, Type};
use grafeia_core::document::{Document, Storage};
use grafeia_core::editor::{cursor_op, text_op, CursorOp, ItemPos, TextOp};

fn doc_with(words: &[&str]) -> (Document, SequenceId, Vec<Tag>) {
    let mut doc = Document::new(Storage::new());
    let t = doc.create_type("paragraph", Type::new("A Paragraph"));
    let seq = doc.crate_seq(t);
    let mut tags = vec![];
    let mut at = Tag::Start(seq);
    for w in words {
        let id = doc.create_word(w);
        at = doc.insert(at, Item::Word(id));
        tags.push(at);
    }
    (doc, seq, tags)
}

fn texts(doc: &Document, seq: SequenceId) -> Vec<String> {
    doc.storage().get_weave(seq).render().iter().map(|item| match item {
        Item::Word(k) => doc.storage().get_word(*k).text.clone(),
        _ => "<other>".to_string(),
    }).collect()
}

#[test]
fn insert_a_character_within_a_word() {
    let (mut doc, seq, tags) = doc_with(&["hello"]);
    let (tag, pos) = text_op(&mut doc, tags[0], ItemPos::Within(2), TextOp::Insert('X')).unwrap();
    assert_eq!(pos, ItemPos::Within(3));
    assert_eq!(texts(&doc, seq), vec!["heXllo"]);
    assert_eq!(doc.storage().get_item(tag).map(|i| matches!(i, Item::Word(_))), Some(true));
    let (_, pos) = text_op(&mut doc, tag, ItemPos::Within(3), TextOp::Insert('é')).unwrap();
    assert_eq!(pos, ItemPos::Within(5));
    assert_eq!(texts(&doc, seq), vec!["heXéllo"]);
}

#[test]
fn delete_graphemes_within_a_word() {
    let (mut doc, seq, tags) = doc_with(&["héllo"]);
    let (tag, pos) = text_op(&mut doc, tags[0], ItemPos::Within(3), TextOp::DeletePrevGrapheme).unwrap();
    assert_eq!(pos, ItemPos::Within(1));
    assert_eq!(texts(&doc, seq), vec!["hllo"]);
    let (_, pos) = text_op(&mut doc, tag, ItemPos::Within(0), TextOp::DeleteNextGrapheme).unwrap();
    assert_eq!(pos, ItemPos::Within(0));
    assert_eq!(texts(&doc, seq), vec!["llo"]);
}

#[test]
fn deleting_the_last_grapheme_removes_the_word() {
    let (mut doc, seq, tags) = doc_with(&["a", "b"]);
    let (tag, pos) = text_op(&mut doc, tags[1], ItemPos::Within(1), TextOp::DeletePrevGrapheme).unwrap();
    assert_eq!((tag, pos), (tags[0], ItemPos::After));
    assert_eq!(texts(&doc, seq), vec!["a"]);
}

#[test]
fn split_a_word() {
    let (mut doc, seq, tags) = doc_with(&["hello"]);
    let (tag, pos) = text_op(&mut doc, tags[0], ItemPos::Within(2), TextOp::Split).unwrap();
    assert_eq!(pos, ItemPos::After);
    assert_eq!(texts(&doc, seq), vec!["he", "llo"]);
    assert_eq!(doc.storage().get_first(seq).map(|e| e.0), Some(tag));
    // at the edges the cursor only moves
    let (t2, p2) = text_op(&mut doc, tag, ItemPos::Within(2), TextOp::Split).unwrap();
    assert_eq!((t2, p2), (tag, ItemPos::After));
    let (t3, p3) = text_op(&mut doc, tag, ItemPos::Within(0), TextOp::Split).unwrap();
    assert_eq!((t3, p3), (Tag::Start(seq), ItemPos::After));
}

#[test]
fn delete_at_the_start_joins_with_the_word_before() {
    let (mut doc, seq, tags) = doc_with(&["foo", "bar"]);
    let (tag, pos) = text_op(&mut doc, tags[1], ItemPos::Within(0), TextOp::DeletePrevGrapheme).unwrap();
    assert_eq!(pos, ItemPos::Within(3));
    assert_eq!(texts(&doc, seq), vec!["foobar"]);
    assert_eq!(doc.storage().get_first(seq).map(|e| e.0), Some(tag));
}

#[test]
fn delete_the_item_after_or_before() {
    let (mut doc, seq, tags) = doc_with(&["one", "two", "three"]);
    let r = text_op(&mut doc, tags[0], ItemPos::After, TextOp::DeleteNextItem).unwrap();
    assert_eq!(r, (tags[0], ItemPos::After));
    assert_eq!(texts(&doc, seq), vec!["one", "three"]);
    let (mut doc, seq, tags) = doc_with(&["one", "two", "three"]);
    let r = text_op(&mut doc, tags[1], ItemPos::After, TextOp::DeletePrevItem).unwrap();
    assert_eq!(r, (tags[0], ItemPos::After));
    assert_eq!(texts(&doc, seq), vec!["one", "three"]);
    assert_eq!(text_op(&mut doc, Tag::Start(seq), ItemPos::After, TextOp::DeletePrevItem), None);
}

#[test]
fn insert_a_word_after_a_tag() {
    let (mut doc, seq, tags) = doc_with(&["one", "two"]);
    let (tag, pos) = text_op(&mut doc, tags[1], ItemPos::After, TextOp::Insert('x')).unwrap();
    assert_eq!(pos, ItemPos::Within(1));
    assert_eq!(texts(&doc, seq), vec!["one", "two", "x"]);
    assert_eq!(doc.storage().get_last(seq).map(|e| e.0), Some(tag));
    assert_eq!(text_op(&mut doc, Tag::Start(seq), ItemPos::After, TextOp::Insert('y')), None);
    assert_eq!(text_op(&mut doc, tags[0], ItemPos::After, TextOp::Split), None);
    let r = text_op(&mut doc, tags[0], ItemPos::After, TextOp::DeletePrevGrapheme).unwrap();
    assert_eq!(r, (tags[0], ItemPos::Within(3)));
}

#[test]
fn a_concurrent_sibling_with_a_later_word_goes_after_the_chain() {
    // "x" refers to "one", as "two" does; its word comes later, so it is
    // placed after "two" and what follows it
    let (mut doc, seq, tags) = doc_with(&["one", "two", "three"]);
    text_op(&mut doc, tags[0], ItemPos::After, TextOp::Insert('x')).unwrap();
    assert_eq!(texts(&doc, seq), vec!["one", "two", "three", "x"]);
}

#[test]
fn new_sequence_after_a_tag() {
    let (mut doc, seq, tags) = doc_with(&["one"]);
    let (tag, pos) = text_op(&mut doc, tags[0], ItemPos::After, TextOp::NewSequence).unwrap();
    assert_eq!(pos, ItemPos::After);
    match tag {
        Tag::Start(child) => {
            assert_ne!(child, seq);
            assert_eq!(doc.storage().get_weave(child).typ(), doc.storage().get_weave(seq).typ());
            assert!(doc.get_parent_tag(tag).is_some());
        },
        _ => panic!("expected the start of a sequence"),
    }
    assert_eq!(texts(&doc, seq), vec!["one", "<other>"]);
}

#[test]
fn cursor_moves_by_graphemes_and_items() {
    let (doc, seq, tags) = doc_with(&["héllo", "x"]);
    assert_eq!(cursor_op(&doc, tags[0], ItemPos::Within(1), CursorOp::GraphemeRight), Some((tags[0], ItemPos::Within(3))));
    assert_eq!(cursor_op(&doc, tags[0], ItemPos::Within(3), CursorOp::GraphemeLeft), Some((tags[0], ItemPos::Within(1))));
    assert_eq!(cursor_op(&doc, tags[0], ItemPos::Within(6), CursorOp::GraphemeRight), Some((tags[0], ItemPos::After)));
    assert_eq!(cursor_op(&doc, tags[0], ItemPos::Within(0), CursorOp::GraphemeLeft), Some((Tag::Start(seq), ItemPos::After)));
    assert_eq!(cursor_op(&doc, tags[0], ItemPos::Within(3), CursorOp::ItemRight), Some((tags[0], ItemPos::After)));
    assert_eq!(cursor_op(&doc, tags[0], ItemPos::After, CursorOp::GraphemeRight), Some((tags[1], ItemPos::Within(0))));
    assert_eq!(cursor_op(&doc, tags[1], ItemPos::After, CursorOp::GraphemeLeft), Some((tags[1], ItemPos::Within(1))));
    assert_eq!(cursor_op(&doc, tags[1], ItemPos::After, CursorOp::ItemRight), Some((Tag::End(seq), ItemPos::After)));
    assert_eq!(cursor_op(&doc, tags[1], ItemPos::After, CursorOp::ItemLeft), Some((tags[0], ItemPos::After)));
    assert_eq!(cursor_op(&doc, Tag::End(seq), ItemPos::After, CursorOp::ItemRight), None);
    assert_eq!(cursor_op(&doc, Tag::End(seq), ItemPos::After, CursorOp::GraphemeLeft), Some((tags[1], ItemPos::After)));
    let _ = SiteId(1);
}

#[test]
fn an_edited_word_keeps_its_place_among_the_items() {
    let (mut doc, seq, tags) = doc_with(&["one", "two", "three"]);
    let before = doc.storage().get_weave(seq).items();
    let (tag, _) = text_op(&mut doc, tags[1], ItemPos::Within(1), TextOp::Insert('w')).unwrap();
    let after = doc.storage().get_weave(seq).items();
    assert_eq!(after.len(), 3);
    assert_eq!(after[0], before[0]);
    assert_eq!(after[2], before[2]);
    assert_eq!(Tag::Item(seq, after[1].0), tag);
    assert_eq!(texts(&doc, seq), vec!["one", "twwo", "three"]);
}

#[test]
fn a_split_word_puts_both_parts_in_its_place() {
    let (mut doc, seq, tags) = doc_with(&["one", "twofold", "three"]);
    let before = doc.storage().get_weave(seq).items();
    let (tag, pos) = text_op(&mut doc, tags[1], ItemPos::Within(3), TextOp::Split).unwrap();
    assert_eq!(pos, ItemPos::After);
    let after = doc.storage().get_weave(seq).items();
    assert_eq!(after.len(), 4);
    assert_eq!(after[0], before[0]);
    assert_eq!(after[3], before[2]);
    assert_eq!(Tag::Item(seq, after[1].0), tag);
    assert_eq!(texts(&doc, seq), vec!["one", "two", "fold", "three"]);
}
