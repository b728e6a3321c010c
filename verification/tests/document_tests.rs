use grafeia_core::ids::{Id, SiteId};
use grafeia_core::keys::{SequenceId, SymbolId, TypeId, WordId};
use grafeia_core::content::{Item, Object, Tag, Type, Word};
use grafeia_core::stamped_map::StampedMap;
use grafeia_core::weave::{Atom, AtomOp};
use grafeia_core::document::{Document, DocumentOp, Storage};

fn new_doc() -> (Document, SequenceId) {
    let mut doc = Document::new(Storage::new());
    let t = doc.create_type("paragraph", Type::new("A Paragraph"));
    let seq = doc.crate_seq(t);
    doc.set_root(seq);
    (doc, seq)
}

fn word_text(doc: &Document, item: Item) -> String {
    match item {
        Item::Word(k) => doc.storage().get_word(k).text.clone(),
        _ => panic!("not a word"),
    }
}

fn rendered(doc: &Document, seq: SequenceId) -> Vec<Item> {
    doc.storage().get_weave(seq).render()
}

#[test]
fn stamped_map_creates_keys_from_its_clock() {
    let mut m: StampedMap<WordId, u32> = StampedMap::new();
    let a = m.create(SiteId(4), 10);
    let b = m.create(SiteId(4), 20);
    assert_eq!(a, WordId(SiteId(4), 0));
    assert_eq!(b, WordId(SiteId(4), 1));
    assert_eq!(m.get(a), Some(&10));
    assert_eq!(m.get(WordId(SiteId(5), 0)), None);
    if let Some(v) = m.get_mut(b) {
        *v = 21;
    }
    assert_eq!(m.get(b), Some(&21));
    let all = m.iter();
    assert_eq!(all.len(), 2);
    assert_eq!(all[0], (a, &10));
    assert_eq!(all[1], (b, &21));
}

#[test]
fn stamped_map_create_after_insert_takes_the_seen_time() {
    let mut m: StampedMap<WordId, u32> = StampedMap::new();
    m.insert(WordId(SiteId(2), 10), 1);
    let k = m.create(SiteId(2), 2);
    assert_eq!(k, WordId(SiteId(2), 10));
    assert_eq!(m.get(k), Some(&2));
}

#[test]
fn create_word_finds_an_existing_word() {
    let (mut doc, _) = new_doc();
    doc.drain_pending();
    let a = doc.create_word("hello");
    let b = doc.create_word("hello");
    let c = doc.create_word("world");
    assert_eq!(a, b);
    assert_ne!(a, c);
    assert_eq!(a, WordId(SiteId(1), 0));
    assert_eq!(c, WordId(SiteId(1), 1));
    let ops = doc.drain_pending();
    assert_eq!(ops.len(), 2);
    match &ops[0] {
        DocumentOp::CreateWord(id, w) => {
            assert_eq!(*id, a);
            assert_eq!(w.text, "hello");
        },
        _ => panic!("expected a word"),
    }
    assert!(doc.drain_pending().is_empty());
}

#[test]
fn create_type_registers_the_name() {
    let mut doc = Document::new(Storage::new());
    let t = doc.create_type("chapter", Type::new("A Chapter"));
    assert_eq!(t, TypeId(SiteId(1), 0));
    assert_eq!(doc.storage().find_type("chapter"), Some(t));
    assert_eq!(doc.storage().find_type("paragraph"), None);
}

#[test]
fn insert_replace_remove() {
    let (mut doc, seq) = new_doc();
    let hello = doc.create_word("hello");
    let world = doc.create_word("world");
    let t1 = doc.insert(Tag::Start(seq), Item::Word(hello));
    let t2 = doc.insert(t1, Item::Word(world));
    assert_eq!(rendered(&doc, seq), vec![Item::Word(hello), Item::Word(world)]);
    assert_eq!(doc.storage().get_item(t1), Some(Item::Word(hello)));
    let there = doc.create_word("there");
    let t3 = doc.replace(t2, Item::Word(there));
    assert_eq!(rendered(&doc, seq), vec![Item::Word(hello), Item::Word(there)]);
    doc.remove(t3);
    assert_eq!(rendered(&doc, seq), vec![Item::Word(hello)]);
    let first = doc.storage().get_first(seq).unwrap();
    assert_eq!(first, (t1, Item::Word(hello)));
    assert_eq!(doc.storage().get_last(seq), Some((t1, Item::Word(hello))));
}

#[test]
fn pending_operations_record_the_edits() {
    let (mut doc, seq) = new_doc();
    doc.drain_pending();
    let hello = doc.create_word("hello");
    let tag = doc.insert(Tag::Start(seq), Item::Word(hello));
    let ops = doc.drain_pending();
    assert_eq!(ops.len(), 2);
    match &ops[1] {
        DocumentOp::SeqOp(s, atom) => {
            assert_eq!(*s, seq);
            assert_eq!(atom.prev, Id::null());
            assert_eq!(atom.op, AtomOp::Add(Item::Word(hello)));
            assert_eq!(Tag::Item(seq, atom.id), tag);
        },
        _ => panic!("expected a sequence operation"),
    }
}

#[test]
fn create_symbol_reads_the_character() {
    let (mut doc, _) = new_doc();
    let open = doc.create_symbol("(");
    let close = doc.create_symbol(")");
    let quote = doc.create_symbol("«");
    let end_quote = doc.create_symbol("»");
    let again = doc.create_symbol("(");
    assert_eq!(open, again);
    assert_eq!(doc.find_symbol("("), Some(open));
    assert_eq!(doc.find_symbol("["), None);
    let s = doc.storage().get_symbol(open);
    assert!(s.leading && !s.trailing);
    assert_eq!((s.overflow_left, s.overflow_right), (0, 0));
    let s = doc.storage().get_symbol(close);
    assert!(!s.leading && s.trailing);
    let s = doc.storage().get_symbol(quote);
    assert!(s.leading && !s.trailing);
    assert_eq!((s.overflow_left, s.overflow_right), (1, 0));
    let s = doc.storage().get_symbol(end_quote);
    assert!(!s.leading && s.trailing);
    assert_eq!((s.overflow_left, s.overflow_right), (0, 1));
    assert_eq!(open, SymbolId(SiteId(1), 0));
}

#[test]
fn create_text_makes_words_and_symbols() {
    let (mut doc, _) = new_doc();
    let items = doc.create_text("Hello, world 42!");
    assert_eq!(items.len(), 5);
    assert_eq!(word_text(&doc, items[0]), "Hello");
    assert!(matches!(items[1], Item::Symbol(_)));
    assert_eq!(word_text(&doc, items[2]), "world");
    assert_eq!(word_text(&doc, items[3]), "42");
    assert!(matches!(items[4], Item::Symbol(_)));
    // the same text again gives the same items
    let again = doc.create_text("Hello, world 42!");
    assert_eq!(items, again);
}

#[test]
fn try_create_text_refuses_a_symbol_of_several_characters() {
    let (mut doc, _) = new_doc();
    assert_eq!(doc.try_create_text("\u{1F469}\u{200D}\u{1F469}"), None);
    let items = doc.try_create_text("a b").unwrap();
    assert_eq!(items.len(), 2);
}

#[test]
fn create_items_skips_white_space() {
    let (mut doc, _) = new_doc();
    let parts = vec![" ".to_string(), "ab".to_string(), "\n".to_string(), ".".to_string()];
    let items = doc.create_items(&parts);
    assert_eq!(items.len(), 2);
    assert_eq!(word_text(&doc, items[0]), "ab");
    assert_eq!(items[1], Item::Symbol(doc.find_symbol(".").unwrap()));
}

#[test]
fn tags_walk_through_a_sequence() {
    let (mut doc, seq) = new_doc();
    let a = doc.create_word("a");
    let b = doc.create_word("b");
    let ta = doc.insert(Tag::Start(seq), Item::Word(a));
    let tb = doc.insert(ta, Item::Word(b));
    assert_eq!(doc.get_next_tag(Tag::Start(seq)), Some(ta));
    assert_eq!(doc.get_next_tag(ta), Some(tb));
    assert_eq!(doc.get_next_tag(tb), Some(Tag::End(seq)));
    assert_eq!(doc.get_next_tag(Tag::End(seq)), None);
    assert_eq!(doc.get_previous_tag(Tag::End(seq)), Some(tb));
    assert_eq!(doc.get_previous_tag(tb), Some(ta));
    assert_eq!(doc.get_previous_tag(ta), Some(Tag::Start(seq)));
    assert_eq!(doc.get_previous_tag(Tag::Start(seq)), None);
    assert_eq!(doc.childen(seq), vec![ta, tb]);
}

#[test]
fn tags_walk_into_and_out_of_nested_sequences() {
    let (mut doc, root) = new_doc();
    let typ = doc.storage().get_weave(root).typ();
    let child = doc.crate_seq(typ);
    let a = doc.create_word("a");
    let b = doc.create_word("b");
    let ta = doc.insert(Tag::Start(root), Item::Word(a));
    let tc = doc.insert(ta, Item::Sequence(child));
    let tb = doc.insert(Tag::Start(child), Item::Word(b));
    assert_eq!(doc.get_parent_tag(Tag::Start(child)), Some(tc));
    assert_eq!(doc.get_parent_tag(ta), None);
    assert_eq!(doc.get_next_tag(ta), Some(Tag::Start(child)));
    assert_eq!(doc.get_next_tag(Tag::Start(child)), Some(tb));
    // leaving the last nested sequence goes to the start of its parent
    assert_eq!(doc.get_next_tag(Tag::End(child)), Some(Tag::Start(root)));
    assert_eq!(doc.get_previous_tag(Tag::Start(child)), Some(ta));
    assert_eq!(doc.get_previous_tag(tc), Some(Tag::End(child)));
    assert_eq!(doc.get_previous_tag_bounded(Tag::Start(child)), None);
    assert_eq!(doc.get_next_tag_bounded(Tag::End(child)), None);
}

#[test]
fn exec_op_registers_remote_words() {
    let (mut doc, _) = new_doc();
    let remote = WordId(SiteId(7), 3);
    doc.exec_op(DocumentOp::CreateWord(remote, Word { text: "remote".to_string() }));
    assert_eq!(doc.create_word("remote"), remote);
    assert_eq!(doc.storage().get_word(remote).text, "remote");
}

#[test]
fn exec_op_adds_a_remote_atom_to_the_weave_twice() {
    let (mut doc, seq) = new_doc();
    let w = doc.create_word("x");
    let atom = Atom { prev: Id::null(), op: AtomOp::Add(Item::Word(w)), id: Id { clock: 4, site: SiteId(2) } };
    doc.exec_op(DocumentOp::SeqOp(seq, atom));
    assert_eq!(rendered(&doc, seq), vec![Item::Word(w), Item::Word(w)]);
}

#[test]
fn from_storage_finds_words_symbols_and_parents() {
    let (mut doc, root) = new_doc();
    let typ = doc.storage().get_weave(root).typ();
    let child = doc.crate_seq(typ);
    let w = doc.create_word("word");
    let s = doc.create_symbol(";");
    let tc = doc.insert(Tag::Start(root), Item::Sequence(child));
    doc.insert(Tag::Start(child), Item::Word(w));
    doc.insert(Tag::Start(child), Item::Symbol(s));
    let storage = doc.into_storage();
    let mut other = Document::from_storage(storage, root, SiteId(2));
    assert_eq!(other.root(), root);
    assert_eq!(other.find_symbol(";"), Some(s));
    assert_eq!(other.create_word("word"), w);
    assert_eq!(other.get_parent_tag(Tag::Start(child)), Some(tc));
    let fresh = other.create_word("fresh");
    assert_eq!(fresh.0, SiteId(2));
}

#[test]
fn objects_fonts_and_dictionaries_are_kept() {
    let (mut doc, _) = new_doc();
    let o = doc.create_object(Object { data: vec![1, 2, 3] });
    assert_eq!(doc.storage().get_object(o).data, vec![1, 2, 3]);
    let f = doc.add_font(vec![9, 9]);
    assert_eq!(doc.storage().get_font_face(f).data, vec![9, 9]);
    assert_eq!(doc.try_load_dict(&[4, 5]), None);
    let bytes = dictionary_bytes();
    let d = doc.try_load_dict(&bytes).unwrap();
    assert_eq!(doc.storage().get_dict(d).data, bytes);
    let e = doc.load_dict(&bytes);
    assert_eq!(e.1, d.1 + 1);
}

/// The bytes of a standard hyphenation dictionary with no patterns and no
/// exceptions, as the `hyphenation` crate stores one.
fn dictionary_bytes() -> Vec<u8> {
    let trie = fst::MapBuilder::memory().into_inner().unwrap();
    let exceptions: std::collections::HashMap<String, Vec<usize>> = std::collections::HashMap::new();
    bincode::serialize(&(0u32, (Vec::<Vec<(u8, u8)>>::new(), trie), exceptions, (2usize, 2usize))).unwrap()
}

#[test]
fn sequences_with_items() {
    let (mut doc, root) = new_doc();
    let typ = doc.storage().get_weave(root).typ();
    let a = doc.create_word("a");
    let b = doc.create_word("b");
    let s = doc.creat_seq_with_items(typ, vec![Item::Word(a), Item::Word(b)]);
    assert_eq!(rendered(&doc, s), vec![Item::Word(a), Item::Word(b)]);
}

#[test]
fn create_text_sends_the_creations_in_the_order_of_the_text() {
    let (mut doc, _) = new_doc();
    doc.drain_pending();
    doc.create_text("b, a b.");
    let ops = doc.drain_pending();
    assert_eq!(ops.len(), 4);
    match &ops[0] {
        DocumentOp::CreateWord(id, w) => {
            assert_eq!(w.text, "b");
            assert_eq!(id.1, 0);
        }
        other => panic!("{:?}", other),
    }
    match &ops[1] {
        DocumentOp::CreateSymbol(id, s) => {
            assert_eq!(s.text, ",");
            assert_eq!(id.1, 0);
        }
        other => panic!("{:?}", other),
    }
    match &ops[2] {
        DocumentOp::CreateWord(id, w) => {
            assert_eq!(w.text, "a");
            assert_eq!(id.1, 1);
        }
        other => panic!("{:?}", other),
    }
    match &ops[3] {
        DocumentOp::CreateSymbol(id, s) => {
            assert_eq!(s.text, ".");
            assert_eq!(id.1, 1);
        }
        other => panic!("{:?}", other),
    }
}

#[test]
fn what_an_edit_puts_its_tag_gives_back() {
    let (mut doc, seq) = new_doc();
    let a = doc.create_word("a");
    let b = doc.create_word("b");
    let ta = doc.insert(Tag::Start(seq), Item::Word(a));
    assert_eq!(doc.storage().get_item(ta), Some(Item::Word(a)));
    let tb = doc.replace(ta, Item::Word(b));
    assert_eq!(doc.storage().get_item(tb), Some(Item::Word(b)));
    assert_eq!(doc.storage().get_item(ta), Some(Item::Word(a)));
    assert_eq!(rendered(&doc, seq), vec![Item::Word(b)]);
}

#[test]
fn replaying_the_pending_operations_gives_the_same_content() {
    let (mut doc, seq) = new_doc();
    doc.drain_pending();
    let mut copy = doc.storage().clone();
    let hello = doc.create_word("hello");
    let world = doc.create_word("world");
    let again = doc.create_word("hello");
    assert_eq!(again, hello);
    let t1 = doc.insert(Tag::Start(seq), Item::Word(hello));
    let t2 = doc.insert(t1, Item::Word(world));
    let t3 = doc.replace(t1, Item::Word(world));
    doc.remove(t2);
    let comma = doc.add_symbol(grafeia_core::content::Symbol {
        text: ",".to_string(),
        leading: false,
        trailing: true,
        overflow_left: 0,
        overflow_right: 0,
    });
    let note = doc.create_type("note", Type::new("A Note"));
    let other = doc.crate_seq(note);
    doc.insert(t3, Item::Symbol(comma));
    let ops = doc.drain_pending();
    assert_eq!(ops.len(), 10);
    for op in ops {
        copy.apply(op);
    }
    for id in [hello, world] {
        assert_eq!(copy.get_word(id).text, doc.storage().get_word(id).text);
    }
    assert_eq!(copy.get_symbol(comma).text, ",");
    assert!(copy.get_symbol(comma).trailing);
    assert_eq!(copy.find_type("note"), Some(note));
    assert_eq!(copy.find_type("paragraph"), doc.storage().find_type("paragraph"));
    assert_eq!(copy.get_weave(seq).items(), doc.storage().get_weave(seq).items());
    assert_eq!(copy.get_weave(other).items(), doc.storage().get_weave(other).items());
    assert_eq!(rendered(&doc, seq), vec![Item::Word(world), Item::Symbol(comma)]);
}

#[test]
fn one_step_forward_then_back_returns() {
    let (mut doc, seq) = new_doc();
    let a = doc.create_word("a");
    let b = doc.create_word("b");
    let ta = doc.insert(Tag::Start(seq), Item::Word(a));
    let tb = doc.insert(ta, Item::Word(b));
    for t in [Tag::Start(seq), ta, tb] {
        let u = doc.get_next_tag_bounded(t).unwrap();
        assert_eq!(doc.get_previous_tag_bounded(u), Some(t));
    }
    assert_eq!(doc.get_next_tag_bounded(tb), Some(Tag::End(seq)));
    assert_eq!(doc.get_next_tag_bounded(Tag::End(seq)), None);
    assert_eq!(doc.get_previous_tag_bounded(Tag::Start(seq)), None);
}

#[test]
fn an_item_inserted_after_the_last_one_renders_right_after_it() {
    let (mut doc, seq) = new_doc();
    let a = doc.create_word("a");
    let b = doc.create_word("b");
    let ta = doc.insert(Tag::Start(seq), Item::Word(a));
    let before = doc.storage().get_weave(seq).items();
    let tb = doc.insert(ta, Item::Word(b));
    let after = doc.storage().get_weave(seq).items();
    assert_eq!(after.len(), 2);
    assert_eq!(after[0], before[0]);
    assert_eq!((Tag::Item(seq, after[1].0), after[1].1), (tb, Item::Word(b)));
}
