use grafeia_core::keys::{SequenceId, TypeId};
use grafeia_core::content::Item;
use grafeia_core::document::{Document, Storage};
use grafeia_core::markdown::{MdEvent, MdTag};

fn markdown_doc() -> Document {
    let mut doc = Document::new(Storage::new());
    doc.define_types();
    doc
}

fn type_named(doc: &Document, name: &str) -> TypeId {
    doc.storage().find_type(name).unwrap()
}

fn items(doc: &Document, seq: SequenceId) -> Vec<Item> {
    doc.storage().get_weave(seq).render()
}

fn type_of(doc: &Document, seq: SequenceId) -> TypeId {
    doc.storage().get_weave(seq).typ()
}

fn word(doc: &Document, item: Item) -> String {
    match item {
        Item::Word(k) => doc.storage().get_word(k).text.clone(),
        other => panic!("not a word: {:?}", other),
    }
}

fn symbol(doc: &Document, item: Item) -> String {
    match item {
        Item::Symbol(k) => doc.storage().get_symbol(k).text.clone(),
        other => panic!("not a symbol: {:?}", other),
    }
}

fn seq(item: Item) -> SequenceId {
    match item {
        Item::Sequence(s) => s,
        other => panic!("not a sequence: {:?}", other),
    }
}

#[test]
fn define_types_registers_every_markdown_type() {
    let mut doc = Document::new(Storage::new());
    assert!(!doc.has_md_types_check());
    doc.define_types();
    assert!(doc.has_md_types_check());
    let names = [
        "header_1", "header_2", "header_3", "header_4", "header_5", "header_6", "document", "paragraph",
        "emphasis", "blockquote", "inline-code", "block-code", "list", "list-item",
    ];
    for (k, name) in names.iter().enumerate() {
        let id = type_named(&doc, name);
        assert_eq!(id.1, k as u32);
    }
}

#[test]
fn import_markdown_makes_a_paragraph_with_emphasis() {
    let mut doc = markdown_doc();
    let root = doc.import_markdown("Hello *world*\n");
    assert_eq!(type_of(&doc, root), type_named(&doc, "document"));
    let top = items(&doc, root);
    assert_eq!(top.len(), 1);
    let para = seq(top[0]);
    assert_eq!(type_of(&doc, para), type_named(&doc, "paragraph"));
    let inner = items(&doc, para);
    assert_eq!(inner.len(), 2);
    assert_eq!(word(&doc, inner[0]), "Hello");
    let em = seq(inner[1]);
    assert_eq!(type_of(&doc, em), type_named(&doc, "emphasis"));
    let em_items = items(&doc, em);
    assert_eq!(em_items.len(), 1);
    assert_eq!(word(&doc, em_items[0]), "world");
}

#[test]
fn a_heading_of_level_one_gets_the_type_at_index_one() {
    let mut doc = markdown_doc();
    let root = doc.import_markdown("# Title\n");
    let top = items(&doc, root);
    assert_eq!(top.len(), 1);
    let heading = seq(top[0]);
    assert_eq!(type_of(&doc, heading), type_named(&doc, "header_2"));
    assert_eq!(word(&doc, items(&doc, heading)[0]), "Title");
}

#[test]
fn inline_code_becomes_a_sequence_of_its_own() {
    let mut doc = markdown_doc();
    let root = doc.import_markdown("say `hi`\n");
    let para = seq(items(&doc, root)[0]);
    let inner = items(&doc, para);
    assert_eq!(inner.len(), 2);
    assert_eq!(word(&doc, inner[0]), "say");
    let code = seq(inner[1]);
    assert_eq!(type_of(&doc, code), type_named(&doc, "inline-code"));
    assert_eq!(word(&doc, items(&doc, code)[0]), "hi");
}

#[test]
fn list_items_start_with_a_bullet() {
    let mut doc = markdown_doc();
    let root = doc.import_markdown("- a\n- b\n");
    let top = items(&doc, root);
    assert_eq!(top.len(), 1);
    let list = seq(top[0]);
    assert_eq!(type_of(&doc, list), type_named(&doc, "list"));
    let entries = items(&doc, list);
    assert_eq!(entries.len(), 2);
    for (entry, text) in entries.iter().zip(["a", "b"].iter()) {
        let item = seq(*entry);
        assert_eq!(type_of(&doc, item), type_named(&doc, "list-item"));
        let parts = items(&doc, item);
        assert_eq!(parts.len(), 2);
        assert_eq!(symbol(&doc, parts[0]), "\u{b7}");
        assert_eq!(word(&doc, parts[1]), *text);
    }
}

#[test]
fn a_tex_code_block_becomes_an_object() {
    let mut doc = markdown_doc();
    let root = doc.import_markdown("```tex\nx^2\n```\n");
    let top = items(&doc, root);
    assert_eq!(top.len(), 1);
    match top[0] {
        Item::Object(id) => assert_eq!(doc.storage().get_object(id).data, b"x^2\n".to_vec()),
        other => panic!("not an object: {:?}", other),
    }
}

#[test]
fn other_code_blocks_are_dropped() {
    let mut doc = markdown_doc();
    let root = doc.import_markdown("```rust\nfn main() {}\n```\n\n    indented\n");
    assert_eq!(items(&doc, root).len(), 0);
}

#[test]
fn try_import_markdown_refuses_unsupported_tags() {
    let mut doc = markdown_doc();
    let before = doc.drain_pending().len();
    assert!(before > 0);
    assert_eq!(doc.try_import_markdown("**bold**\n"), None);
    assert_eq!(doc.try_import_markdown("1. one\n"), None);
    assert_eq!(doc.try_import_markdown("###### six\n"), None);
    assert_eq!(doc.drain_pending().len(), 0);
    let root = doc.try_import_markdown("##### five\n").unwrap();
    let heading = seq(items(&doc, root)[0]);
    assert_eq!(type_of(&doc, heading), type_named(&doc, "header_6"));
}

#[test]
fn try_import_markdown_needs_the_types() {
    let mut doc = Document::new(Storage::new());
    assert_eq!(doc.try_import_markdown("text\n"), None);
    assert_eq!(doc.drain_pending().len(), 0);
}

#[test]
fn import_events_takes_hand_made_events() {
    let mut doc = markdown_doc();
    let types = doc.storage().find_type("paragraph").unwrap();
    let events = vec![
        MdEvent::Start(MdTag::Paragraph),
        MdEvent::Text("one two".to_string()),
        MdEvent::Other,
        MdEvent::End,
    ];
    assert!(doc.events_fit(&events));
    let ty = grafeia_core::markdown::MdTypes {
        document: type_named(&doc, "document"),
        paragraph: types,
        emphasis: type_named(&doc, "emphasis"),
        block_quote: type_named(&doc, "blockquote"),
        inline_code: type_named(&doc, "inline-code"),
        list: type_named(&doc, "list"),
        list_item: type_named(&doc, "list-item"),
        block_code: type_named(&doc, "block-code"),
        headings: [
            type_named(&doc, "header_1"),
            type_named(&doc, "header_2"),
            type_named(&doc, "header_3"),
            type_named(&doc, "header_4"),
            type_named(&doc, "header_5"),
            type_named(&doc, "header_6"),
        ],
    };
    let root = doc.import_events(&events, &ty);
    let para = seq(items(&doc, root)[0]);
    assert_eq!(type_of(&doc, para), types);
    let words = items(&doc, para);
    assert_eq!(words.len(), 2);
    assert_eq!(word(&doc, words[0]), "one");
    assert_eq!(word(&doc, words[1]), "two");
}

#[test]
fn events_fit_refuses_other_events_inside_a_code_block() {
    let doc = markdown_doc();
    let events = vec![
        MdEvent::Start(MdTag::CodeBlock(Some("tex".to_string()))),
        MdEvent::Start(MdTag::Paragraph),
        MdEvent::End,
        MdEvent::End,
    ];
    assert!(!doc.events_fit(&events));
    let events = vec![MdEvent::Start(MdTag::Other), MdEvent::End];
    assert!(!doc.events_fit(&events));
}

#[test]
fn a_block_quote_holds_its_paragraph() {
    let mut doc = markdown_doc();
    let root = doc.import_markdown("> quoted words\n");
    let top = items(&doc, root);
    assert_eq!(top.len(), 1);
    let quote = seq(top[0]);
    assert_eq!(type_of(&doc, quote), type_named(&doc, "blockquote"));
    let para = seq(items(&doc, quote)[0]);
    assert_eq!(type_of(&doc, para), type_named(&doc, "paragraph"));
    let words = items(&doc, para);
    assert_eq!(words.len(), 2);
    assert_eq!(word(&doc, words[0]), "quoted");
    assert_eq!(word(&doc, words[1]), "words");
}

#[test]
fn paragraphs_follow_each_other_in_the_document() {
    let mut doc = markdown_doc();
    let root = doc.import_markdown("one\n\ntwo\n");
    let top = items(&doc, root);
    assert_eq!(top.len(), 2);
    assert_eq!(word(&doc, items(&doc, seq(top[0]))[0]), "one");
    assert_eq!(word(&doc, items(&doc, seq(top[1]))[0]), "two");
}
