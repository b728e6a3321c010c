//! The shared storage of a document and the document a site edits.
use vstd::prelude::*;
use std::collections::HashMap;
use crate::ids::{Id, SiteId, Clock};
use crate::keys::{WordId, SymbolId, ObjectId, SequenceId, TypeId, FontId, DictId};
use crate::content::{Type, Word, Symbol, Item, Tag, FontFace, Object, Dictionary};
use crate::weave::{Atom, AtomOp, Weave, add_slot, can_add, item_of, closed, weave_items, lemma_added_item_renders, index_of, has_id, lemma_index_from_found, lemma_index_from_bounds};
use crate::stamped_map::{StampedMap, key_code, lemma_key_code_injective};
use crate::ids::{stamp_code_of, Stamped};
use crate::weave::{previous_of, next_of, pos_from};
use crate::name_index::NameIndex;
use crate::chars::{initial_quote, final_quote, open_punct, close_punct, is_initial_quote, is_final_quote, is_open_punct, is_close_punct};
use crate::chars::{is_white_space, is_letter_char, is_number_char, white_space, letter, number, word_segments, word_bounds};
use vstd::string::StrSliceExecFns;

verus! {

/// An operation on a document, as it is sent between sites.
#[derive(Debug, Clone)]
pub enum DocumentOp {
    SeqOp(SequenceId, Atom),
    CreateSequence(SequenceId, TypeId),
    CreateWord(WordId, Word),
    CreateSymbol(SymbolId, Symbol),
    CreateType(TypeId, String, Type),
    CreateFont(FontId, FontFace),
    CreateObject(ObjectId, Object),
    CreateDictionary(DictId, Dictionary),
}

/// The later of two times.
pub open spec fn later(a: int, b: int) -> int {
    if a > b { a } else { b }
}

/// `new` is `old` with `atom` added.
pub open spec fn weave_added(old: Weave, new: Weave, atom: Atom) -> bool {
    &&& new.atom_seq() == old.atom_seq().insert(add_slot(old.atom_seq(), atom), atom)
    &&& new.type_of() == old.type_of()
    &&& new.now() == (if old.now() > atom.id.clock { old.now() } else { atom.id.clock as int })
}

/// The content of a document: its sequences (as weaves), words, symbols,
/// objects, types, fonts and dictionaries, each under a stamped key.
#[derive(Debug, Clone)]
pub struct Storage {
    weaves: StampedMap<SequenceId, Weave>,
    words: StampedMap<WordId, Word>,
    symbols: StampedMap<SymbolId, Symbol>,
    objects: StampedMap<ObjectId, Object>,
    types: StampedMap<TypeId, Type>,
    type_names: NameIndex<TypeId>,
    fonts: StampedMap<FontId, FontFace>,
    dicts: StampedMap<DictId, Dictionary>,
    sites: Clock<u32>,
}

impl Storage {
    pub closed spec fn wf(&self) -> bool {
        &&& self.weaves.wf()
        &&& forall|s: SequenceId| #[trigger] self.weaves@.contains_key(s) ==> closed(self.weaves@[s].atom_seq())
        &&& self.words.wf()
        &&& self.symbols.wf()
        &&& self.objects.wf()
        &&& self.types.wf()
        &&& self.type_names.wf()
        &&& self.fonts.wf()
        &&& self.dicts.wf()
    }

    pub closed spec fn weave_map(&self) -> Map<SequenceId, Weave> {
        self.weaves@
    }

    pub closed spec fn word_map(&self) -> Map<WordId, Word> {
        self.words@
    }

    pub closed spec fn symbol_map(&self) -> Map<SymbolId, Symbol> {
        self.symbols@
    }

    pub closed spec fn object_map(&self) -> Map<ObjectId, Object> {
        self.objects@
    }

    pub closed spec fn type_map(&self) -> Map<TypeId, Type> {
        self.types@
    }

    pub closed spec fn type_name_map(&self) -> Map<Seq<char>, TypeId> {
        self.type_names@
    }

    pub closed spec fn font_map(&self) -> Map<FontId, FontFace> {
        self.fonts@
    }

    pub closed spec fn dict_map(&self) -> Map<DictId, Dictionary> {
        self.dicts@
    }

    /// The times the clocks of the maps hand out next.
    pub closed spec fn weave_clock(&self) -> int {
        self.weaves.now()
    }

    pub closed spec fn word_clock(&self) -> int {
        self.words.now()
    }

    pub closed spec fn symbol_clock(&self) -> int {
        self.symbols.now()
    }

    pub closed spec fn object_clock(&self) -> int {
        self.objects.now()
    }

    pub closed spec fn type_clock(&self) -> int {
        self.types.now()
    }

    pub closed spec fn font_clock(&self) -> int {
        self.fonts.now()
    }

    pub closed spec fn dict_clock(&self) -> int {
        self.dicts.now()
    }

    /// The item a tag points at: the item the atom adds or replaces with.
    pub open spec fn item_at(&self, tag: Tag) -> Option<Item> {
        match tag {
            Tag::Item(s, i) => if self.weave_map().contains_key(s) {
                item_of(self.weave_map()[s].atom_seq(), i)
            } else {
                None
            },
            _ => None,
        }
    }

    /// The two are the same but for the map (and its clock) numbered `which`:
    /// 0 weaves, 1 words, 2 symbols, 3 objects, 4 types (with their names),
    /// 5 fonts, 6 dictionaries.
    pub open spec fn same_but(&self, other: &Storage, which: int) -> bool {
        &&& (which == 0 || (self.weave_map() == other.weave_map() && self.weave_clock() == other.weave_clock()))
        &&& (which == 1 || (self.word_map() == other.word_map() && self.word_clock() == other.word_clock()))
        &&& (which == 2 || (self.symbol_map() == other.symbol_map() && self.symbol_clock() == other.symbol_clock()))
        &&& (which == 3 || (self.object_map() == other.object_map() && self.object_clock() == other.object_clock()))
        &&& (which == 4 || (self.type_map() == other.type_map() && self.type_name_map() == other.type_name_map()
            && self.type_clock() == other.type_clock()))
        &&& (which == 5 || (self.font_map() == other.font_map() && self.font_clock() == other.font_clock()))
        &&& (which == 6 || (self.dict_map() == other.dict_map() && self.dict_clock() == other.dict_clock()))
    }

    /// Everything but the words and the symbols (with their clocks) is the
    /// same in both.
    pub open spec fn same_but_text(&self, other: &Storage) -> bool {
        &&& self.weave_map() == other.weave_map() && self.weave_clock() == other.weave_clock()
        &&& self.object_map() == other.object_map() && self.object_clock() == other.object_clock()
        &&& self.type_map() == other.type_map() && self.type_name_map() == other.type_name_map()
            && self.type_clock() == other.type_clock()
        &&& self.font_map() == other.font_map() && self.font_clock() == other.font_clock()
        &&& self.dict_map() == other.dict_map() && self.dict_clock() == other.dict_clock()
    }

    /// The times the weave, word, symbol and object clocks hand out next.
    pub fn text_clocks(&self) -> (r: (u32, u32, u32, u32))
        ensures
            r.0 == self.weave_clock(),
            r.1 == self.word_clock(),
            r.2 == self.symbol_clock(),
            r.3 == self.object_clock(),
    {
        (self.weaves.time(), self.words.time(), self.symbols.time(), self.objects.time())
    }

    pub proof fn lemma_clock_ranges(&self)
        ensures
            0 <= self.weave_clock() <= u32::MAX,
            0 <= self.word_clock() <= u32::MAX,
            0 <= self.symbol_clock() <= u32::MAX,
            0 <= self.object_clock() <= u32::MAX,
            0 <= self.type_clock() <= u32::MAX,
            0 <= self.font_clock() <= u32::MAX,
            0 <= self.dict_clock() <= u32::MAX,
    {
        self.weaves.lemma_now_range();
        self.words.lemma_now_range();
        self.symbols.lemma_now_range();
        self.objects.lemma_now_range();
        self.types.lemma_now_range();
        self.fonts.lemma_now_range();
        self.dicts.lemma_now_range();
    }

    /// Everything but the weaves is the same in both.
    pub open spec fn same_but_weaves(&self, other: &Storage) -> bool {
        &&& self.word_map() == other.word_map()
        &&& self.symbol_map() == other.symbol_map()
        &&& self.object_map() == other.object_map()
        &&& self.type_map() == other.type_map()
        &&& self.type_name_map() == other.type_name_map()
        &&& self.font_map() == other.font_map()
        &&& self.dict_map() == other.dict_map()
    }

    pub fn new() -> (r: Storage)
        ensures
            r.wf(),
            r.weave_map() == Map::<SequenceId, Weave>::empty(),
            r.word_map() == Map::<WordId, Word>::empty(),
            r.symbol_map() == Map::<SymbolId, Symbol>::empty(),
            r.object_map() == Map::<ObjectId, Object>::empty(),
            r.type_map() == Map::<TypeId, Type>::empty(),
            r.type_name_map() == Map::<Seq<char>, TypeId>::empty(),
            r.font_map() == Map::<FontId, FontFace>::empty(),
            r.dict_map() == Map::<DictId, Dictionary>::empty(),
            r.weave_clock() == 0,
            r.word_clock() == 0,
            r.symbol_clock() == 0,
            r.object_clock() == 0,
            r.type_clock() == 0,
            r.font_clock() == 0,
            r.dict_clock() == 0,
    {
        Storage {
            weaves: StampedMap::new(),
            words: StampedMap::new(),
            symbols: StampedMap::new(),
            objects: StampedMap::new(),
            types: StampedMap::new(),
            type_names: NameIndex::new(),
            fonts: StampedMap::new(),
            dicts: StampedMap::new(),
            sites: Clock::new(),
        }
    }

    /// Adds an atom to the weave of a sequence.
    fn add_atom(&mut self, id: SequenceId, atom: Atom)
        requires
            old(self).wf(),
            old(self).weave_map().contains_key(id),
            can_add(old(self).weave_map()[id].atom_seq(), atom),
        ensures
            final(self).wf(),
            final(self).same_but(&*old(self), 0),
            final(self).weave_clock() == old(self).weave_clock(),
            final(self).weave_map().dom() == old(self).weave_map().dom(),
            weave_added(old(self).weave_map()[id], final(self).weave_map()[id], atom),
            forall|s: SequenceId| s != id ==> #[trigger] final(self).weave_map()[s] == old(self).weave_map()[s],
            forall|b: Atom| can_add(old(self).weave_map()[id].atom_seq(), b) ==> #[trigger] can_add(
                final(self).weave_map()[id].atom_seq(),
                b,
            ),
    {
        let ghost old_weaves = self.weaves;
        let w = self.weaves.get_mut(id);
        match w {
            Some(w) => {
                w.add(atom);
            },
            None => {},
        }
        proof {
            self.weaves.lemma_same_but_value(&old_weaves, id);
            assert(self.weaves@.dom() =~= old_weaves@.dom());
        }
    }

    /// `self` is `old` after `op` was applied: the atom added to its weave,
    /// or the created entry put under its key (the map's clock catching up
    /// with the key's time); all else stays.
    pub open spec fn applied(&self, old: &Storage, op: DocumentOp) -> bool {
        match op {
            DocumentOp::SeqOp(id, atom) => {
                &&& self.same_but(old, 0)
                &&& self.weave_clock() == old.weave_clock()
                &&& self.weave_map().dom() == old.weave_map().dom()
                &&& weave_added(old.weave_map()[id], self.weave_map()[id], atom)
                &&& forall|s: SequenceId| s != id ==> #[trigger] self.weave_map()[s] == old.weave_map()[s]
            },
            DocumentOp::CreateSequence(id, typ) => {
                &&& self.same_but(old, 0)
                &&& self.weave_clock() == later(old.weave_clock(), id.1 as int)
                &&& self.weave_map().dom() == old.weave_map().dom().insert(id)
                &&& self.weave_map()[id].type_of() == typ
                &&& self.weave_map()[id].atom_seq() == Seq::<Atom>::empty()
                &&& self.weave_map()[id].now() == 0
                &&& forall|s: SequenceId| s != id ==> #[trigger] self.weave_map()[s] == old.weave_map()[s]
            },
            DocumentOp::CreateWord(id, word) => {
                &&& self.same_but(old, 1)
                &&& self.word_map() == old.word_map().insert(id, word)
                &&& self.word_clock() == later(old.word_clock(), id.1 as int)
            },
            DocumentOp::CreateSymbol(id, symbol) => {
                &&& self.same_but(old, 2)
                &&& self.symbol_map() == old.symbol_map().insert(id, symbol)
                &&& self.symbol_clock() == later(old.symbol_clock(), id.1 as int)
            },
            DocumentOp::CreateObject(id, object) => {
                &&& self.same_but(old, 3)
                &&& self.object_map() == old.object_map().insert(id, object)
                &&& self.object_clock() == later(old.object_clock(), id.1 as int)
            },
            DocumentOp::CreateType(id, name, typ) => {
                &&& self.same_but(old, 4)
                &&& self.type_map() == old.type_map().insert(id, typ)
                &&& self.type_name_map() == old.type_name_map().insert(name@, id)
                &&& self.type_clock() == later(old.type_clock(), id.1 as int)
            },
            DocumentOp::CreateFont(id, font) => {
                &&& self.same_but(old, 5)
                &&& self.font_map() == old.font_map().insert(id, font)
                &&& self.font_clock() == later(old.font_clock(), id.1 as int)
            },
            DocumentOp::CreateDictionary(id, dict) => {
                &&& self.same_but(old, 6)
                &&& self.dict_map() == old.dict_map().insert(id, dict)
                &&& self.dict_clock() == later(old.dict_clock(), id.1 as int)
            },
        }
    }

    /// The two hold the same content, seen as values: the same sequences
    /// with the same atoms (so the same items) and types, the same words,
    /// symbols, objects, fonts and dictionaries under the same keys, and
    /// the same types under the same names.  Clocks are not compared.
    pub open spec fn agrees_with(&self, other: &Storage) -> bool {
        &&& self.weave_map().dom() == other.weave_map().dom()
        &&& forall|s: SequenceId| #[trigger] self.weave_map().contains_key(s)
            ==> self.weave_map()[s].atom_seq() == other.weave_map()[s].atom_seq()
            && self.weave_map()[s].type_of() == other.weave_map()[s].type_of()
        &&& self.word_map().dom() == other.word_map().dom()
        &&& forall|k: WordId| #[trigger] self.word_map().contains_key(k)
            ==> self.word_map()[k].text@ == other.word_map()[k].text@
        &&& self.symbol_map().dom() == other.symbol_map().dom()
        &&& forall|k: SymbolId| #[trigger] self.symbol_map().contains_key(k)
            ==> same_symbol(self.symbol_map()[k], other.symbol_map()[k])
        &&& self.object_map().dom() == other.object_map().dom()
        &&& forall|k: ObjectId| #[trigger] self.object_map().contains_key(k)
            ==> self.object_map()[k].data@ == other.object_map()[k].data@
        &&& self.type_map() == other.type_map()
        &&& self.type_name_map() == other.type_name_map()
        &&& self.font_map().dom() == other.font_map().dom()
        &&& forall|k: FontId| #[trigger] self.font_map().contains_key(k)
            ==> self.font_map()[k].data@ == other.font_map()[k].data@
        &&& self.dict_map().dom() == other.dict_map().dom()
        &&& forall|k: DictId| #[trigger] self.dict_map().contains_key(k)
            ==> self.dict_map()[k].data@ == other.dict_map()[k].data@
    }

    /// `self` is `old` with the content of `op` in it, seen as values: the
    /// atom added to its weave (where it can be added), or the created entry
    /// put under its key; the rest of the content stays.
    pub open spec fn holds_op(&self, old: &Storage, op: DocumentOp) -> bool {
        match op {
            DocumentOp::SeqOp(id, atom) => {
                &&& self.same_but(old, 0)
                &&& self.weave_map().dom() == old.weave_map().dom()
                &&& old.weave_map().contains_key(id)
                &&& can_add(old.weave_map()[id].atom_seq(), atom)
                &&& self.weave_map()[id].atom_seq() == old.weave_map()[id].atom_seq().insert(
                    add_slot(old.weave_map()[id].atom_seq(), atom),
                    atom,
                )
                &&& self.weave_map()[id].type_of() == old.weave_map()[id].type_of()
                &&& forall|s: SequenceId| s != id ==> #[trigger] self.weave_map()[s] == old.weave_map()[s]
            },
            DocumentOp::CreateSequence(id, typ) => {
                &&& self.same_but(old, 0)
                &&& map_put(self.weave_map(), old.weave_map(), id)
                &&& self.weave_map()[id].type_of() == typ
                &&& self.weave_map()[id].atom_seq() == Seq::<Atom>::empty()
            },
            DocumentOp::CreateWord(id, word) => {
                &&& self.same_but(old, 1)
                &&& map_put(self.word_map(), old.word_map(), id)
                &&& self.word_map()[id].text@ == word.text@
            },
            DocumentOp::CreateSymbol(id, symbol) => {
                &&& self.same_but(old, 2)
                &&& map_put(self.symbol_map(), old.symbol_map(), id)
                &&& same_symbol(self.symbol_map()[id], symbol)
            },
            DocumentOp::CreateObject(id, object) => {
                &&& self.same_but(old, 3)
                &&& map_put(self.object_map(), old.object_map(), id)
                &&& self.object_map()[id].data@ == object.data@
            },
            DocumentOp::CreateType(id, name, typ) => {
                &&& self.same_but(old, 4)
                &&& self.type_map() == old.type_map().insert(id, typ)
                &&& self.type_name_map() == old.type_name_map().insert(name@, id)
            },
            DocumentOp::CreateFont(id, font) => {
                &&& self.same_but(old, 5)
                &&& map_put(self.font_map(), old.font_map(), id)
                &&& self.font_map()[id].data@ == font.data@
            },
            DocumentOp::CreateDictionary(id, dict) => {
                &&& self.same_but(old, 6)
                &&& map_put(self.dict_map(), old.dict_map(), id)
                &&& self.dict_map()[id].data@ == dict.data@
            },
        }
    }

    /// Applies an operation: adds the atom to its weave, or puts the created
    /// entry under its key.
    pub fn apply(&mut self, doc_op: DocumentOp)
        requires
            old(self).wf(),
            doc_op matches DocumentOp::SeqOp(id, atom) ==> old(self).weave_map().contains_key(id)
                && can_add(old(self).weave_map()[id].atom_seq(), atom),
        ensures
            final(self).wf(),
            final(self).applied(&*old(self), doc_op),
    {
        match doc_op {
            DocumentOp::SeqOp(id, op) => {
                self.add_atom(id, op);
            },
            DocumentOp::CreateSequence(id, typ) => {
                self.weaves.insert(id, Weave::new(typ));
            },
            DocumentOp::CreateWord(id, word) => {
                self.words.insert(id, word);
            },
            DocumentOp::CreateSymbol(id, symbol) => {
                self.symbols.insert(id, symbol);
            },
            DocumentOp::CreateObject(id, object) => {
                self.objects.insert(id, object);
            },
            DocumentOp::CreateFont(id, font) => {
                self.fonts.insert(id, font);
            },
            DocumentOp::CreateType(id, name, typ) => {
                self.types.insert(id, typ);
                self.type_names.insert(name, id);
            },
            DocumentOp::CreateDictionary(id, dict) => {
                self.dicts.insert(id, dict);
            },
        }
    }

    /// Whether the atom can be added to the sequence: the sequence is there
    /// and the atom can be added to its weave.
    pub fn can_add_atom(&self, id: SequenceId, atom: Atom) -> (r: bool)
        requires
            self.wf(),
        ensures
            r == (self.weave_map().contains_key(id) && can_add(self.weave_map()[id].atom_seq(), atom)),
    {
        match self.weaves.get(id) {
            Some(w) => w.can_take(atom),
            None => false,
        }
    }

    /// The item a tag points at.
    pub fn get_item(&self, tag: Tag) -> (r: Option<Item>)
        requires
            self.wf(),
        ensures
            r == self.item_at(tag),
    {
        let weave = self.weaves.get(tag.seq())?;
        weave.get_item(tag.item()?)
    }

    pub fn get_word(&self, id: WordId) -> (r: &Word)
        requires
            self.wf(),
            self.word_map().contains_key(id),
        ensures
            *r == self.word_map()[id],
    {
        self.words.get(id).unwrap()
    }

    pub fn get_symbol(&self, id: SymbolId) -> (r: &Symbol)
        requires
            self.wf(),
            self.symbol_map().contains_key(id),
        ensures
            *r == self.symbol_map()[id],
    {
        self.symbols.get(id).unwrap()
    }

    pub fn get_object(&self, id: ObjectId) -> (r: &Object)
        requires
            self.wf(),
            self.object_map().contains_key(id),
        ensures
            *r == self.object_map()[id],
    {
        self.objects.get(id).unwrap()
    }

    pub fn get_font_face(&self, id: FontId) -> (r: &FontFace)
        requires
            self.wf(),
            self.font_map().contains_key(id),
        ensures
            *r == self.font_map()[id],
    {
        self.fonts.get(id).unwrap()
    }

    pub fn get_weave(&self, id: SequenceId) -> (r: &Weave)
        requires
            self.wf(),
            self.weave_map().contains_key(id),
        ensures
            *r == self.weave_map()[id],
    {
        self.weaves.get(id).unwrap()
    }

    pub fn get_dict(&self, id: DictId) -> (r: &Dictionary)
        requires
            self.wf(),
            self.dict_map().contains_key(id),
        ensures
            *r == self.dict_map()[id],
    {
        self.dicts.get(id).unwrap()
    }

    /// The last item of a sequence, with its tag.
    pub fn get_last(&self, seq_id: SequenceId) -> (r: Option<(Tag, Item)>)
        requires
            self.wf(),
            self.weave_map().contains_key(seq_id),
        ensures
            r == (if self.weave_map()[seq_id].item_seq().len() > 0 {
                Some((Tag::Item(seq_id, self.weave_map()[seq_id].item_seq().last().0), self.weave_map()[seq_id].item_seq().last().1))
            } else {
                None
            }),
    {
        match self.get_weave(seq_id).get_last() {
            Some((item_id, item)) => Some((Tag::Item(seq_id, item_id), item)),
            None => None,
        }
    }

    /// The first item of a sequence, with its tag.
    pub fn get_first(&self, seq_id: SequenceId) -> (r: Option<(Tag, Item)>)
        requires
            self.wf(),
            self.weave_map().contains_key(seq_id),
        ensures
            r == (if self.weave_map()[seq_id].item_seq().len() > 0 {
                Some((Tag::Item(seq_id, self.weave_map()[seq_id].item_seq()[0].0), self.weave_map()[seq_id].item_seq()[0].1))
            } else {
                None
            }),
    {
        match self.get_weave(seq_id).get_first() {
            Some((item_id, item)) => Some((Tag::Item(seq_id, item_id), item)),
            None => None,
        }
    }

    /// The type registered under a name.
    pub fn find_type(&self, name: &str) -> (r: Option<TypeId>)
        requires
            self.wf(),
        ensures
            r == (if self.type_name_map().contains_key(name@) {
                Some(self.type_name_map()[name@])
            } else {
                None
            }),
    {
        self.type_names.get(name)
    }
}


/// The bytes hold a standard hyphenation dictionary, as the `hyphenation`
/// crate stores one.
pub uninterp spec fn is_dictionary(data: Seq<u8>) -> bool;

/// `Load::any_from_reader` of `hyphenation::Standard` on the bytes, asking
/// only whether it succeeds: whether they hold a standard hyphenation
/// dictionary.
#[verifier::external_body]
fn reads_as_dictionary(data: &[u8]) -> (r: bool)
    ensures
        r == is_dictionary(data@),
{
    <::hyphenation::Standard as ::hyphenation::Load>::any_from_reader(&mut std::io::Cursor::new(data)).is_ok()
}

/// A text the word index knows, in a document whose indexes are sound, is
/// the text of the stored word the index gives.
proof fn lemma_known_word(d: Document, text: Seq<char>)
    ensures
        d.indexes_sound() && d.word_index().contains_key(text) ==> d.storage_of().word_map().contains_key(
            d.word_index()[text],
        ) && d.storage_of().word_map()[d.word_index()[text]].text@ == text,
{
    reveal(Document::texts_agree);
}

/// The same for symbols.
proof fn lemma_known_symbol(d: Document, text: Seq<char>)
    ensures
        d.indexes_sound() && d.symbol_index().contains_key(text) ==> d.storage_of().symbol_map().contains_key(
            d.symbol_index()[text],
        ) && d.storage_of().symbol_map()[d.symbol_index()[text]].text@ == text,
{
    reveal(Document::texts_agree);
}

/// A word created under this site's next id keeps sound indexes sound.
proof fn lemma_word_added_sound(d0: Document, d1: Document, text: Seq<char>, id: WordId)
    requires
        id == WordId(d0.site_of(), d0.storage_of().word_clock() as u32),
        0 <= d0.storage_of().word_clock() < u32::MAX,
        d1.site_of() == d0.site_of(),
        d1.storage_of().same_but(&d0.storage_of(), 1),
        d1.storage_of().word_clock() == d0.storage_of().word_clock() + 1,
        map_put(d1.storage_of().word_map(), d0.storage_of().word_map(), id),
        d1.storage_of().word_map()[id].text@ == text,
        d1.word_index() == d0.word_index().insert(text, id),
        d1.symbol_index() == d0.symbol_index(),
    ensures
        d0.indexes_sound() ==> d1.indexes_sound(),
{
    reveal(Document::texts_agree);
    reveal(Document::own_keys_fresh);
    if d0.indexes_sound() {
        assert(!d0.storage_of().word_map().contains_key(id));
        assert forall|t: Seq<char>| #[trigger] d1.word_index().contains_key(t) implies
            d1.storage_of().word_map().contains_key(d1.word_index()[t])
            && d1.storage_of().word_map()[d1.word_index()[t]].text@ == t by {
            if t != text {
                assert(d0.word_index().contains_key(t));
                assert(d0.storage_of().word_map().contains_key(d0.word_index()[t]));
            }
        }
        assert forall|k: WordId| #[trigger] d1.storage_of().word_map().contains_key(k) && k.0 == d1.site_of()
            implies k.1 < d1.storage_of().word_clock() by {
            if k != id {
                assert(d0.storage_of().word_map().contains_key(k));
            }
        }
        assert forall|k: SymbolId| #[trigger] d1.storage_of().symbol_map().contains_key(k) && k.0 == d1.site_of()
            implies k.1 < d1.storage_of().symbol_clock() by {
            assert(d0.storage_of().symbol_map().contains_key(k));
        }
        assert forall|t: Seq<char>| #[trigger] d1.symbol_index().contains_key(t) implies
            d1.storage_of().symbol_map().contains_key(d1.symbol_index()[t])
            && d1.storage_of().symbol_map()[d1.symbol_index()[t]].text@ == t by {
            assert(d0.symbol_index().contains_key(t));
        }
    }
}

/// A symbol created under this site's next id keeps sound indexes sound.
proof fn lemma_symbol_added_sound(d0: Document, d1: Document, text: Seq<char>, id: SymbolId)
    requires
        id == SymbolId(d0.site_of(), d0.storage_of().symbol_clock() as u32),
        0 <= d0.storage_of().symbol_clock() < u32::MAX,
        d1.site_of() == d0.site_of(),
        d1.storage_of().same_but(&d0.storage_of(), 2),
        d1.storage_of().symbol_clock() == d0.storage_of().symbol_clock() + 1,
        map_put(d1.storage_of().symbol_map(), d0.storage_of().symbol_map(), id),
        d1.storage_of().symbol_map()[id].text@ == text,
        d1.symbol_index() == d0.symbol_index().insert(text, id),
        d1.word_index() == d0.word_index(),
    ensures
        d0.indexes_sound() ==> d1.indexes_sound(),
{
    reveal(Document::texts_agree);
    reveal(Document::own_keys_fresh);
    if d0.indexes_sound() {
        assert(!d0.storage_of().symbol_map().contains_key(id));
        assert forall|t: Seq<char>| #[trigger] d1.symbol_index().contains_key(t) implies
            d1.storage_of().symbol_map().contains_key(d1.symbol_index()[t])
            && d1.storage_of().symbol_map()[d1.symbol_index()[t]].text@ == t by {
            if t != text {
                assert(d0.symbol_index().contains_key(t));
                assert(d0.storage_of().symbol_map().contains_key(d0.symbol_index()[t]));
            }
        }
        assert forall|k: SymbolId| #[trigger] d1.storage_of().symbol_map().contains_key(k) && k.0 == d1.site_of()
            implies k.1 < d1.storage_of().symbol_clock() by {
            if k != id {
                assert(d0.storage_of().symbol_map().contains_key(k));
            }
        }
        assert forall|k: WordId| #[trigger] d1.storage_of().word_map().contains_key(k) && k.0 == d1.site_of()
            implies k.1 < d1.storage_of().word_clock() by {
            assert(d0.storage_of().word_map().contains_key(k));
        }
        assert forall|t: Seq<char>| #[trigger] d1.word_index().contains_key(t) implies
            d1.storage_of().word_map().contains_key(d1.word_index()[t])
            && d1.storage_of().word_map()[d1.word_index()[t]].text@ == t by {
            assert(d0.word_index().contains_key(t));
        }
    }
}

/// Executing the creation of a word keeps the texts in agreement where
/// its id held no word of another text, and this site's ids free where
/// the id is not one of this site's still to come.
proof fn lemma_remote_word_sound(d0: Document, d1: Document, id: WordId, word: Word)
    requires
        d1.site_of() == d0.site_of(),
        d1.storage_of().applied(&d0.storage_of(), DocumentOp::CreateWord(id, word)),
        d1.word_index() == d0.word_index().insert(word.text@, id),
        d1.symbol_index() == d0.symbol_index(),
    ensures
        (d0.texts_agree() && (d0.storage_of().word_map().contains_key(id)
            ==> d0.storage_of().word_map()[id].text@ == word.text@)) ==> d1.texts_agree(),
        (d0.own_keys_fresh() && (id.0 == d0.site_of() ==> id.1 < d0.storage_of().word_clock()))
            ==> d1.own_keys_fresh(),
{
    reveal(Document::texts_agree);
    reveal(Document::own_keys_fresh);
    if d0.texts_agree() && (d0.storage_of().word_map().contains_key(id)
        ==> d0.storage_of().word_map()[id].text@ == word.text@) {
        assert forall|t: Seq<char>| #[trigger] d1.word_index().contains_key(t) implies
            d1.storage_of().word_map().contains_key(d1.word_index()[t])
            && d1.storage_of().word_map()[d1.word_index()[t]].text@ == t by {
            if t != word.text@ {
                assert(d0.word_index().contains_key(t));
                let k = d0.word_index()[t];
                assert(d0.storage_of().word_map().contains_key(k));
                if k == id {
                    assert(d0.storage_of().word_map()[k].text@ == t);
                }
            }
        }
        assert forall|t: Seq<char>| #[trigger] d1.symbol_index().contains_key(t) implies
            d1.storage_of().symbol_map().contains_key(d1.symbol_index()[t])
            && d1.storage_of().symbol_map()[d1.symbol_index()[t]].text@ == t by {
            assert(d0.symbol_index().contains_key(t));
        }
    }
    if d0.own_keys_fresh() && (id.0 == d0.site_of() ==> id.1 < d0.storage_of().word_clock()) {
        assert forall|k: WordId| #[trigger] d1.storage_of().word_map().contains_key(k) && k.0 == d1.site_of()
            implies k.1 < d1.storage_of().word_clock() by {
            if k != id {
                assert(d0.storage_of().word_map().contains_key(k));
            }
        }
        assert forall|k: SymbolId| #[trigger] d1.storage_of().symbol_map().contains_key(k) && k.0 == d1.site_of()
            implies k.1 < d1.storage_of().symbol_clock() by {
            assert(d0.storage_of().symbol_map().contains_key(k));
        }
    }
}

/// The same for the creation of a symbol.
proof fn lemma_remote_symbol_sound(d0: Document, d1: Document, id: SymbolId, symbol: Symbol)
    requires
        d1.site_of() == d0.site_of(),
        d1.storage_of().applied(&d0.storage_of(), DocumentOp::CreateSymbol(id, symbol)),
        d1.symbol_index() == d0.symbol_index().insert(symbol.text@, id),
        d1.word_index() == d0.word_index(),
    ensures
        (d0.texts_agree() && (d0.storage_of().symbol_map().contains_key(id)
            ==> d0.storage_of().symbol_map()[id].text@ == symbol.text@)) ==> d1.texts_agree(),
        (d0.own_keys_fresh() && (id.0 == d0.site_of() ==> id.1 < d0.storage_of().symbol_clock()))
            ==> d1.own_keys_fresh(),
{
    reveal(Document::texts_agree);
    reveal(Document::own_keys_fresh);
    if d0.texts_agree() && (d0.storage_of().symbol_map().contains_key(id)
        ==> d0.storage_of().symbol_map()[id].text@ == symbol.text@) {
        assert forall|t: Seq<char>| #[trigger] d1.symbol_index().contains_key(t) implies
            d1.storage_of().symbol_map().contains_key(d1.symbol_index()[t])
            && d1.storage_of().symbol_map()[d1.symbol_index()[t]].text@ == t by {
            if t != symbol.text@ {
                assert(d0.symbol_index().contains_key(t));
                let k = d0.symbol_index()[t];
                assert(d0.storage_of().symbol_map().contains_key(k));
                if k == id {
                    assert(d0.storage_of().symbol_map()[k].text@ == t);
                }
            }
        }
        assert forall|t: Seq<char>| #[trigger] d1.word_index().contains_key(t) implies
            d1.storage_of().word_map().contains_key(d1.word_index()[t])
            && d1.storage_of().word_map()[d1.word_index()[t]].text@ == t by {
            assert(d0.word_index().contains_key(t));
        }
    }
    if d0.own_keys_fresh() && (id.0 == d0.site_of() ==> id.1 < d0.storage_of().symbol_clock()) {
        assert forall|k: SymbolId| #[trigger] d1.storage_of().symbol_map().contains_key(k) && k.0 == d1.site_of()
            implies k.1 < d1.storage_of().symbol_clock() by {
            if k != id {
                assert(d0.storage_of().symbol_map().contains_key(k));
            }
        }
        assert forall|k: WordId| #[trigger] d1.storage_of().word_map().contains_key(k) && k.0 == d1.site_of()
            implies k.1 < d1.storage_of().word_clock() by {
            assert(d0.storage_of().word_map().contains_key(k));
        }
    }
}

/// `new` is `old` with one more key `k` (or `k` overwritten); all other keys
/// keep their values.
pub open spec fn map_put<K, V>(new: Map<K, V>, old: Map<K, V>, k: K) -> bool {
    &&& new.dom() == old.dom().insert(k)
    &&& forall|k2: K| k2 != k ==> #[trigger] new[k2] == old[k2]
}

/// The parents after linking `tag`, whose item is `item`.
pub open spec fn linked(m: Map<SequenceId, Tag>, item: Option<Item>, tag: Tag) -> Map<SequenceId, Tag> {
    match item {
        Some(Item::Sequence(child)) => m.insert(child, tag),
        _ => m,
    }
}

/// The parents after unlinking a tag whose item is `item`.
pub open spec fn unlinked(m: Map<SequenceId, Tag>, item: Option<Item>) -> Map<SequenceId, Tag> {
    match item {
        Some(Item::Sequence(child)) => m.remove(child),
        _ => m,
    }
}

/// The tag of an entry of a sequence, or the start of the sequence.
pub open spec fn entry_tag(s: SequenceId, e: Option<(Id, Item)>) -> Tag {
    match e {
        Some(p) => Tag::Item(s, p.0),
        None => Tag::Start(s),
    }
}

/// `new` is `old` with one operation pushed, which `p` holds of.
pub open spec fn pushed(new: Seq<DocumentOp>, old: Seq<DocumentOp>, p: spec_fn(DocumentOp) -> bool) -> bool {
    &&& new.len() == old.len() + 1
    &&& new == old.push(new.last())
    &&& p(new.last())
}

fn copy_word(w: &Word) -> (r: Word)
    ensures
        r == *w,
{
    Word { text: w.text.clone() }
}

fn copy_symbol(w: &Symbol) -> (r: Symbol)
    ensures
        r == *w,
{
    Symbol {
        text: w.text.clone(),
        leading: w.leading,
        trailing: w.trailing,
        overflow_left: w.overflow_left,
        overflow_right: w.overflow_right,
    }
}

fn copy_type(w: &Type) -> (r: Type)
    ensures
        r == *w,
{
    Type { description: w.description.clone() }
}

fn copy_bytes(v: &Vec<u8>) -> (r: Vec<u8>)
    ensures
        r@ == v@,
{
    let r = v.clone();
    assert(r@ =~= v@);
    r
}

/// A document as one site edits it: the storage, the operations made here
/// and not yet sent, where each nested sequence stands in its parent, and
/// the words and symbols by their text.
pub struct Document {
    storage: Storage,
    site: SiteId,
    pending: Vec<DocumentOp>,
    parents: HashMap<u64, Tag>,
    words: NameIndex<WordId>,
    symbols: NameIndex<SymbolId>,
    root: Option<SequenceId>,
}

impl Document {
    pub closed spec fn storage_of(&self) -> Storage {
        self.storage
    }

    pub closed spec fn site_of(&self) -> SiteId {
        self.site
    }

    pub closed spec fn pending_seq(&self) -> Seq<DocumentOp> {
        self.pending@
    }

    /// Where each nested sequence stands: the tag of the item that holds it.
    pub closed spec fn parent_map(&self) -> Map<SequenceId, Tag> {
        Map::new(
            |s: SequenceId| self.parents@.contains_key(key_code(s)),
            |s: SequenceId| self.parents@[key_code(s)],
        )
    }

    /// The words by their text.
    pub closed spec fn word_index(&self) -> Map<Seq<char>, WordId> {
        self.words@
    }

    /// The symbols by their text.
    pub closed spec fn symbol_index(&self) -> Map<Seq<char>, SymbolId> {
        self.symbols@
    }

    pub closed spec fn root_of(&self) -> Option<SequenceId> {
        self.root
    }

    /// The storage and the indexes are consistent, and each parent is an
    /// item of a sequence that is there.
    pub closed spec fn wf(&self) -> bool {
        &&& self.storage.wf()
        &&& self.words.wf()
        &&& self.symbols.wf()
        &&& forall|c: u64| #[trigger] self.parents@.contains_key(c) ==> (self.parents@[c] is Item
            && self.storage.weave_map().contains_key(self.parents@[c].seq_of()))
    }

    /// A well-formed document has a well-formed storage.
    pub proof fn lemma_storage_wf(&self)
        requires
            self.wf(),
        ensures
            self.storage_of().wf(),
    {
    }

    /// Every atom of a sequence of a well-formed document refers to the
    /// start or to an atom that is there.
    pub proof fn lemma_weave_closed(&self, seq: SequenceId)
        requires
            self.wf(),
            self.storage_of().weave_map().contains_key(seq),
        ensures
            closed(self.weave_of(seq).atom_seq()),
    {
    }

    proof fn lemma_parents(&self)
        requires
            self.wf(),
        ensures
            forall|s: SequenceId| #[trigger] self.parent_map().contains_key(s) ==> (self.parent_map()[s] is Item
                && self.storage_of().weave_map().contains_key(self.parent_map()[s].seq_of())),
    {
    }

    /// The weave of a sequence.
    pub open spec fn weave_of(&self, s: SequenceId) -> Weave {
        self.storage_of().weave_map()[s]
    }

    pub fn new(storage: Storage) -> (r: Document)
        requires
            storage.wf(),
        ensures
            r.wf(),
            r.storage_of() == storage,
            r.site_of() == SiteId(1),
            r.pending_seq() == Seq::<DocumentOp>::empty(),
            r.parent_map() == Map::<SequenceId, Tag>::empty(),
            r.word_index() == Map::<Seq<char>, WordId>::empty(),
            r.symbol_index() == Map::<Seq<char>, SymbolId>::empty(),
            r.root_of() == None::<SequenceId>,
            storage.word_map() == Map::<WordId, Word>::empty() && storage.symbol_map() == Map::<SymbolId, Symbol>::empty()
                ==> r.indexes_sound(),
    {
        let r = Document {
            storage,
            site: SiteId(1),
            pending: Vec::new(),
            parents: HashMap::new(),
            words: NameIndex::new(),
            symbols: NameIndex::new(),
            root: None,
        };
        assert(r.parent_map() =~= Map::<SequenceId, Tag>::empty());
        proof {
            reveal(Document::texts_agree);
            reveal(Document::own_keys_fresh);
        }
        r
    }

    pub fn set_root(&mut self, root: SequenceId)
        ensures
            final(self).root_of() == Some(root),
            final(self).storage_of() == old(self).storage_of(),
            final(self).site_of() == old(self).site_of(),
            final(self).pending_seq() == old(self).pending_seq(),
            final(self).parent_map() == old(self).parent_map(),
            final(self).word_index() == old(self).word_index(),
            final(self).symbol_index() == old(self).symbol_index(),
            old(self).wf() ==> final(self).wf(),
    {
        self.root = Some(root);
    }

    pub fn root(&self) -> (r: SequenceId)
        requires
            self.root_of() is Some,
        ensures
            Some(r) == self.root_of(),
    {
        self.root.unwrap()
    }

    pub fn into_storage(self) -> (r: Storage)
        ensures
            r == self.storage_of(),
    {
        self.storage
    }

    pub fn storage(&self) -> (r: &Storage)
        ensures
            *r == self.storage_of(),
    {
        &self.storage
    }

    /// Hands out the operations made here since the last call, and forgets them.
    pub fn drain_pending(&mut self) -> (r: Vec<DocumentOp>)
        ensures
            r@ == old(self).pending_seq(),
            final(self).pending_seq() == Seq::<DocumentOp>::empty(),
            final(self).storage_of() == old(self).storage_of(),
            final(self).site_of() == old(self).site_of(),
            final(self).parent_map() == old(self).parent_map(),
            final(self).word_index() == old(self).word_index(),
            final(self).symbol_index() == old(self).symbol_index(),
            final(self).root_of() == old(self).root_of(),
            old(self).wf() ==> final(self).wf(),
    {
        let mut out: Vec<DocumentOp> = Vec::new();
        std::mem::swap(&mut out, &mut self.pending);
        out
    }

    /// Records where the sequence the tag holds (if any) stands.
    fn link(&mut self, tag: Tag)
        requires
            old(self).wf(),
        ensures
            final(self).wf(),
            final(self).parent_map() == linked(old(self).parent_map(), old(self).storage_of().item_at(tag), tag),
            final(self).storage_of() == old(self).storage_of(),
            final(self).site_of() == old(self).site_of(),
            final(self).pending_seq() == old(self).pending_seq(),
            final(self).word_index() == old(self).word_index(),
            final(self).symbol_index() == old(self).symbol_index(),
            final(self).root_of() == old(self).root_of(),
    {
        let ghost old_map = self.parent_map();
        match self.storage.get_item(tag) {
            Some(Item::Sequence(child_id)) => {
                let c = stamp_code_of(child_id.site(), child_id.value());
                self.parents.insert(c, tag);
                proof {
                    assert(tag is Item);
                    assert forall|s: SequenceId| #![trigger self.parent_map().contains_key(s)] #![trigger old_map.insert(child_id, tag).contains_key(s)]
                        self.parent_map().contains_key(s) == old_map.insert(child_id, tag).contains_key(s)
                        && (self.parent_map().contains_key(s) ==> self.parent_map()[s] == old_map.insert(child_id, tag)[s]) by {
                        if s != child_id && key_code(s) == c {
                            lemma_key_code_injective(s, child_id);
                        }
                    }
                    assert(self.parent_map() =~= old_map.insert(child_id, tag));
                }
            },
            _ => {},
        }
    }

    /// Forgets where the sequence the tag holds (if any) stands.
    fn unlink(&mut self, tag: Tag)
        requires
            old(self).wf(),
        ensures
            final(self).wf(),
            final(self).parent_map() == unlinked(old(self).parent_map(), old(self).storage_of().item_at(tag)),
            final(self).storage_of() == old(self).storage_of(),
            final(self).site_of() == old(self).site_of(),
            final(self).pending_seq() == old(self).pending_seq(),
            final(self).word_index() == old(self).word_index(),
            final(self).symbol_index() == old(self).symbol_index(),
            final(self).root_of() == old(self).root_of(),
    {
        let ghost old_map = self.parent_map();
        match self.storage.get_item(tag) {
            Some(Item::Sequence(child_id)) => {
                let c = stamp_code_of(child_id.site(), child_id.value());
                self.parents.remove(&c);
                proof {
                    assert forall|s: SequenceId| #![trigger self.parent_map().contains_key(s)] #![trigger old_map.remove(child_id).contains_key(s)]
                        self.parent_map().contains_key(s) == old_map.remove(child_id).contains_key(s)
                        && (self.parent_map().contains_key(s) ==> self.parent_map()[s] == old_map.remove(child_id)[s]) by {
                        if s != child_id && key_code(s) == c {
                            lemma_key_code_injective(s, child_id);
                        }
                    }
                    assert(self.parent_map() =~= old_map.remove(child_id));
                }
            },
            _ => {},
        }
    }

    /// The tag of the item that holds the sequence of `tag`.
    pub fn get_parent_tag(&self, tag: Tag) -> (r: Option<Tag>)
        ensures
            r == (if self.parent_map().contains_key(tag.seq_of()) {
                Some(self.parent_map()[tag.seq_of()])
            } else {
                None
            }),
    {
        let s = tag.seq();
        let c = stamp_code_of(s.site(), s.value());
        match self.parents.get(&c) {
            Some(t) => Some(*t),
            None => None,
        }
    }

    /// The symbol with the given text.
    pub fn find_symbol(&self, text: &str) -> (r: Option<SymbolId>)
        requires
            self.wf(),
        ensures
            r == (if self.symbol_index().contains_key(text@) {
                Some(self.symbol_index()[text@])
            } else {
                None
            }),
    {
        self.symbols.get(text)
    }

    /// The site, the root and the parents are those of `other`.
    pub open spec fn same_frame(&self, other: &Document) -> bool {
        &&& self.site_of() == other.site_of()
        &&& self.root_of() == other.root_of()
        &&& self.parent_map() == other.parent_map()
    }

    /// The word with the given text: the one there is, or a new one,
    /// created here (with an operation to send).
    pub fn create_word(&mut self, text: &str) -> (id: WordId)
        requires
            old(self).wf(),
            !old(self).word_index().contains_key(text@) ==> old(self).storage_of().word_clock() < u32::MAX,
        ensures
            final(self).word_created(&*old(self), text@, id),
            final(self).replay_step(&*old(self)),
    {
        let ghost d0 = *self;
        match self.words.get(text) {
            Some(id) => {
                proof {
                    lemma_known_word(d0, text@);
                }
                id
            },
            None => {
                let word = Word { text: text.to_owned() };
                let ghost old_words = self.storage.words@;
                proof {
                    self.storage.lemma_clock_ranges();
                }
                let id = self.storage.words.create(self.site, copy_word(&word));
                self.words.insert(text.to_owned(), id);
                self.pending.push(DocumentOp::CreateWord(id, word));
                proof {
                    assert(self.storage.words@.dom() =~= old_words.dom().insert(id));
                    lemma_word_added_sound(d0, *self, text@, id);
                }
                id
            },
        }
    }

    /// A new, empty sequence of the given type.
    pub fn crate_seq(&mut self, typ: TypeId) -> (id: SequenceId)
        requires
            old(self).wf(),
            old(self).storage_of().weave_clock() < u32::MAX,
        ensures
            final(self).seq_created(&*old(self), typ, id),
            final(self).replay_step(&*old(self)),
    {
        let ghost old_weaves = self.storage.weaves@;
        let id = self.storage.weaves.create(self.site, Weave::new(typ));
        self.pending.push(DocumentOp::CreateSequence(id, typ));
        proof {
            assert(self.storage.weaves@.dom() =~= old_weaves.dom().insert(id));
        }
        id
    }

    /// A new sequence of the given type that holds the given items.
    pub fn creat_seq_with_items(&mut self, typ: TypeId, items: Vec<Item>) -> (id: SequenceId)
        requires
            old(self).wf(),
            old(self).storage_of().weave_clock() < u32::MAX,
            items@.len() < u32::MAX,
        ensures
            final(self).seq_with_items_created(&*old(self), typ, items@, id),
    {
        let ghost old_weaves = self.storage.weaves@;
        let weave = Weave::from_items(self.site, typ, items);
        let id = self.storage.weaves.create(self.site, weave);
        self.pending.push(DocumentOp::CreateSequence(id, typ));
        proof {
            assert(self.storage.weaves@.dom() =~= old_weaves.dom().insert(id));
        }
        id
    }

    /// A new type, registered under the name.
    pub fn create_type(&mut self, name: &str, typ: Type) -> (id: TypeId)
        requires
            old(self).wf(),
            old(self).storage_of().type_clock() < u32::MAX,
        ensures
            final(self).wf(),
            final(self).same_frame(&*old(self)),
            final(self).word_index() == old(self).word_index(),
            final(self).symbol_index() == old(self).symbol_index(),
            id == TypeId(old(self).site_of(), old(self).storage_of().type_clock() as u32),
            final(self).storage_of().same_but(&old(self).storage_of(), 4),
            final(self).storage_of().type_clock() == old(self).storage_of().type_clock() + 1,
            final(self).storage_of().type_map() == old(self).storage_of().type_map().insert(id, typ),
            final(self).storage_of().type_name_map() == old(self).storage_of().type_name_map().insert(name@, id),
            pushed(final(self).pending_seq(), old(self).pending_seq(),
                |op: DocumentOp| op matches DocumentOp::CreateType(i, n, t) && i == id && n@ == name@ && t == typ),
            final(self).replay_step(&*old(self)),
    {
        let id = self.storage.types.create(self.site, copy_type(&typ));
        self.storage.type_names.insert(name.to_owned(), id);
        self.pending.push(DocumentOp::CreateType(id, name.to_owned(), typ));
        id
    }

    /// A new embedded object.
    pub fn create_object(&mut self, object: Object) -> (id: ObjectId)
        requires
            old(self).wf(),
            old(self).storage_of().object_clock() < u32::MAX,
        ensures
            final(self).object_created(&*old(self), object, id),
            final(self).replay_step(&*old(self)),
    {
        let copy = Object { data: copy_bytes(&object.data) };
        let id = self.storage.objects.create(self.site, object);
        self.pending.push(DocumentOp::CreateObject(id, copy));
        id
    }

    /// A new font face from the bytes of a font file.
    pub fn add_font(&mut self, data: Vec<u8>) -> (id: FontId)
        requires
            old(self).wf(),
            old(self).storage_of().font_clock() < u32::MAX,
        ensures
            final(self).wf(),
            final(self).same_frame(&*old(self)),
            final(self).word_index() == old(self).word_index(),
            final(self).symbol_index() == old(self).symbol_index(),
            id == FontId(old(self).site_of(), old(self).storage_of().font_clock() as u32),
            final(self).storage_of().same_but(&old(self).storage_of(), 5),
            final(self).storage_of().font_clock() == old(self).storage_of().font_clock() + 1,
            map_put(final(self).storage_of().font_map(), old(self).storage_of().font_map(), id),
            final(self).storage_of().font_map()[id].data@ == data@,
            pushed(final(self).pending_seq(), old(self).pending_seq(),
                |op: DocumentOp| op matches DocumentOp::CreateFont(i, f) && i == id && f.data@ == data@),
            final(self).replay_step(&*old(self)),
    {
        let font = FontFace::from_data(data);
        let copy = FontFace { data: copy_bytes(&font.data) };
        let ghost old_fonts = self.storage.fonts@;
        let id = self.storage.fonts.create(self.site, font);
        self.pending.push(DocumentOp::CreateFont(id, copy));
        proof {
            assert(self.storage.fonts@.dom() =~= old_fonts.dom().insert(id));
        }
        id
    }

    /// A new symbol, findable by its text.
    pub fn add_symbol(&mut self, symbol: Symbol) -> (id: SymbolId)
        requires
            old(self).wf(),
            old(self).storage_of().symbol_clock() < u32::MAX,
        ensures
            final(self).wf(),
            final(self).same_frame(&*old(self)),
            final(self).word_index() == old(self).word_index(),
            id == SymbolId(old(self).site_of(), old(self).storage_of().symbol_clock() as u32),
            final(self).storage_of().same_but(&old(self).storage_of(), 2),
            final(self).storage_of().symbol_clock() == old(self).storage_of().symbol_clock() + 1,
            final(self).storage_of().symbol_map() == old(self).storage_of().symbol_map().insert(id, symbol),
            final(self).symbol_index() == old(self).symbol_index().insert(symbol.text@, id),
            pushed(final(self).pending_seq(), old(self).pending_seq(),
                |op: DocumentOp| op matches DocumentOp::CreateSymbol(i, s) && i == id && s == symbol),
            old(self).indexes_sound() ==> final(self).indexes_sound(),
            final(self).replay_step(&*old(self)),
    {
        let ghost d0 = *self;
        let ghost t = symbol.text@;
        proof {
            self.storage.lemma_clock_ranges();
        }
        let copy = copy_symbol(&symbol);
        let text = symbol.text.clone();
        let id = self.storage.symbols.create(self.site, symbol);
        self.symbols.insert(text, id);
        self.pending.push(DocumentOp::CreateSymbol(id, copy));
        proof {
            lemma_symbol_added_sound(d0, *self, t, id);
        }
        id
    }

    /// A new hyphenation dictionary.
    pub fn add_dict(&mut self, dict: Dictionary) -> (id: DictId)
        requires
            old(self).wf(),
            old(self).storage_of().dict_clock() < u32::MAX,
        ensures
            final(self).wf(),
            final(self).same_frame(&*old(self)),
            final(self).word_index() == old(self).word_index(),
            final(self).symbol_index() == old(self).symbol_index(),
            id == DictId(old(self).site_of(), old(self).storage_of().dict_clock() as u32),
            final(self).storage_of().same_but(&old(self).storage_of(), 6),
            final(self).storage_of().dict_clock() == old(self).storage_of().dict_clock() + 1,
            final(self).storage_of().dict_map() == old(self).storage_of().dict_map().insert(id, dict),
            pushed(final(self).pending_seq(), old(self).pending_seq(),
                |op: DocumentOp| op matches DocumentOp::CreateDictionary(i, d) && i == id && d.data@ == dict.data@),
            final(self).replay_step(&*old(self)),
    {
        let copy = Dictionary { data: copy_bytes(&dict.data) };
        let id = self.storage.dicts.create(self.site, dict);
        self.pending.push(DocumentOp::CreateDictionary(id, copy));
        id
    }

    /// `self` is `old` after the dictionary stored as `data` was added
    /// under `id`, the next dictionary id of this site.
    pub open spec fn dict_loaded(&self, old: &Document, data: Seq<u8>, id: DictId) -> bool {
        &&& self.wf()
        &&& self.same_frame(old)
        &&& self.word_index() == old.word_index()
        &&& self.symbol_index() == old.symbol_index()
        &&& id == DictId(old.site_of(), old.storage_of().dict_clock() as u32)
        &&& self.storage_of().same_but(&old.storage_of(), 6)
        &&& self.storage_of().dict_clock() == old.storage_of().dict_clock() + 1
        &&& map_put(self.storage_of().dict_map(), old.storage_of().dict_map(), id)
        &&& self.storage_of().dict_map()[id].data@ == data
        &&& pushed(self.pending_seq(), old.pending_seq(),
            |op: DocumentOp| op matches DocumentOp::CreateDictionary(i, d) && i == id && d.data@ == data)
    }

    /// A new hyphenation dictionary from the bytes it is stored as, which
    /// must hold one (as the `hyphenation` crate reads it).
    pub fn load_dict(&mut self, data: &[u8]) -> (id: DictId)
        requires
            old(self).wf(),
            old(self).storage_of().dict_clock() < u32::MAX,
            is_dictionary(data@),
        ensures
            final(self).dict_loaded(&*old(self), data@, id),
    {
        let bytes = vstd::slice::slice_to_vec(data);
        let dict = Dictionary::from_data(bytes);
        let ghost old_dicts = self.storage.dicts@;
        let id = self.add_dict(dict);
        proof {
            assert(self.storage.dicts@.dom() =~= old_dicts.dom().insert(id));
        }
        id
    }

    /// `load_dict` where the bytes hold a hyphenation dictionary; otherwise
    /// nothing, and nothing changes.
    pub fn try_load_dict(&mut self, data: &[u8]) -> (r: Option<DictId>)
        requires
            old(self).wf(),
            old(self).storage_of().dict_clock() < u32::MAX,
        ensures
            r is Some <==> is_dictionary(data@),
            r matches Some(id) ==> final(self).dict_loaded(&*old(self), data@, id),
            r is None ==> *final(self) == *old(self),
    {
        if reads_as_dictionary(data) {
            Some(self.load_dict(data))
        } else {
            None
        }
    }

    /// The weaves are those of `old` but for the weave of `seq`, to which `a`
    /// was added right after it was created (its clock one step on); all
    /// other content is the same.
    pub open spec fn atom_added(&self, old: &Document, seq: SequenceId, a: Atom) -> bool {
        let w0 = old.weave_of(seq);
        let w1 = self.weave_of(seq);
        &&& self.storage_of().same_but(&old.storage_of(), 0)
        &&& self.storage_of().weave_clock() == old.storage_of().weave_clock()
        &&& self.storage_of().weave_map().dom() == old.storage_of().weave_map().dom()
        &&& forall|s: SequenceId| s != seq ==> #[trigger] self.weave_of(s) == old.weave_of(s)
        &&& 0 <= add_slot(w0.atom_seq(), a) <= w0.atom_seq().len()
        &&& w1.atom_seq() == w0.atom_seq().insert(add_slot(w0.atom_seq(), a), a)
        &&& w1.type_of() == w0.type_of()
        &&& w1.now() == w0.now() + 1
    }

    /// The atom this site would create next in the weave of `seq`.
    pub open spec fn next_atom(&self, seq: SequenceId, prev: Id, op: AtomOp) -> Atom {
        Atom { prev, op, id: Id { site: self.site_of(), clock: self.weave_of(seq).now() as u32 } }
    }

    /// Creates an atom here and adds it to the weave of `seq`.
    fn add_new_atom(&mut self, seq: SequenceId, prev: Id, op: AtomOp) -> (atom: Atom)
        requires
            old(self).wf(),
            old(self).storage_of().weave_map().contains_key(seq),
            old(self).weave_of(seq).now() < u32::MAX,
            prev == Id::null_spec() || index_of(old(self).weave_of(seq).atom_seq(), prev) >= 0,
        ensures
            final(self).wf(),
            atom == old(self).next_atom(seq, prev, op),
            final(self).atom_added(&*old(self), seq, atom),
            final(self).same_frame(&*old(self)),
            final(self).pending_seq() == old(self).pending_seq(),
            final(self).word_index() == old(self).word_index(),
            final(self).symbol_index() == old(self).symbol_index(),
    {
        let ghost old_weaves = self.storage.weaves;
        let ghost old_map = self.parent_map();
        let site = self.site;
        proof {
            self.weave_of(seq).lemma_now_range();
        }
        let w = self.storage.weaves.get_mut(seq);
        let atom = match w {
            Some(w) => {
                let atom = w.create(site, prev, op);
                w.add(atom);
                atom
            },
            None => {
                proof {
                    assert(false);
                }
                Atom { prev, op, id: Id { site, clock: 0 } }
            },
        };
        proof {
            self.storage.weaves.lemma_same_but_value(&old_weaves, seq);
            assert(self.storage.weaves@.dom() =~= old_weaves@.dom());
            assert(self.parent_map() =~= old_map);
            assert(self.storage_of().same_but(&old(self).storage_of(), 0));
            assert(self.storage_of().weave_clock() == old(self).storage_of().weave_clock());
            assert(forall|s: SequenceId| s != seq ==> #[trigger] self.weave_of(s) == old(self).weave_of(s));
            assert(self.weave_of(seq).atom_seq() == old(self).weave_of(seq).atom_seq().insert(add_slot(old(self).weave_of(seq).atom_seq(), atom), atom));
            assert(self.weave_of(seq).type_of() == old(self).weave_of(seq).type_of());
            assert(self.weave_of(seq).now() == old(self).weave_of(seq).now() + 1);
        }
        atom
    }

    /// Adds the item after the tag (at the start of the sequence for a start
    /// tag), and gives the tag of the new item.
    pub fn insert(&mut self, tag: Tag, new_item: Item) -> (r: Tag)
        requires
            old(self).wf(),
            !(tag is End),
            old(self).storage_of().weave_map().contains_key(tag.seq_of()),
            old(self).weave_of(tag.seq_of()).now() < u32::MAX,
            tag matches Tag::Item(_, p) ==> (p == Id::null_spec() || index_of(
                old(self).weave_of(tag.seq_of()).atom_seq(),
                p,
            ) >= 0),
        ensures
            final(self).inserted(&*old(self), tag, new_item, r),
            final(self).replay_step(&*old(self)),
    {
        let (seq, prev_id) = match tag {
            Tag::Start(seq) => (seq, Id::null()),
            Tag::Item(seq, item) => (seq, item),
            Tag::End(seq) => {
                proof {
                    assert(false);
                }
                (seq, Id::null())
            },
        };
        let ghost w0 = self.weave_of(seq).atom_seq();
        let atom = self.add_new_atom(seq, prev_id, AtomOp::Add(new_item));
        let ghost mid = *self;
        let tag = Tag::Item(seq, atom.id);
        self.pending.push(DocumentOp::SeqOp(seq, atom));
        proof {
            if !has_id(w0, atom.id) && atom.id != Id::null_spec() {
                lemma_added_item_renders(w0, atom, new_item);
            }
        }
        self.link(tag);
        proof {
            assert forall|s: SequenceId| s != seq implies #[trigger] self.weave_of(s) == old(self).weave_of(s) by {
                assert(mid.weave_of(s) == old(self).weave_of(s));
            }
            assert(self.pending_seq().last() == DocumentOp::SeqOp(seq, atom));
            assert forall|s: SequenceId| s != seq implies #[trigger] self.storage_of().weave_map()[s]
                == old(self).storage_of().weave_map()[s] by {
                assert(self.weave_of(s) == old(self).weave_of(s));
            }
            assert(self.storage_of().holds_op(&old(self).storage_of(), DocumentOp::SeqOp(seq, atom)));
        }
        tag
    }

    /// Replaces the item of the tag by a new one, and gives the tag of the
    /// replacement.  Where the old item is a sequence, that sequence loses
    /// its place; then the tag is linked again (by what it points at).
    pub fn replace(&mut self, tag: Tag, new_item: Item) -> (r: Tag)
        requires
            old(self).wf(),
            tag is Item,
            old(self).storage_of().weave_map().contains_key(tag.seq_of()),
            old(self).weave_of(tag.seq_of()).now() < u32::MAX,
            tag matches Tag::Item(_, p) ==> (p == Id::null_spec() || index_of(
                old(self).weave_of(tag.seq_of()).atom_seq(),
                p,
            ) >= 0),
        ensures
            final(self).replaced(&*old(self), tag, new_item, r),
            final(self).replay_step(&*old(self)),
    {
        self.unlink(tag);
        let (seq, id) = match tag {
            Tag::Item(s, i) => (s, i),
            _ => {
                proof {
                    assert(false);
                }
                (tag.seq(), Id::null())
            },
        };
        let ghost pre = *self;
        let atom = self.add_new_atom(seq, id, AtomOp::Replace(new_item));
        let ghost mid = *self;
        self.pending.push(DocumentOp::SeqOp(seq, atom));
        self.link(tag);
        proof {
            assert forall|s: SequenceId| s != seq implies #[trigger] self.weave_of(s) == old(self).weave_of(s) by {
                assert(mid.weave_of(s) == pre.weave_of(s));
            }
            assert(self.pending_seq().last() == DocumentOp::SeqOp(seq, atom));
            assert forall|s: SequenceId| s != seq implies #[trigger] self.storage_of().weave_map()[s]
                == old(self).storage_of().weave_map()[s] by {
                assert(self.weave_of(s) == old(self).weave_of(s));
            }
            assert(self.storage_of().holds_op(&old(self).storage_of(), DocumentOp::SeqOp(seq, atom)));
        }
        Tag::Item(seq, atom.id)
    }

    /// Removes the item of the tag.  Where it is a sequence, that sequence
    /// loses its place.
    pub fn remove(&mut self, tag: Tag)
        requires
            old(self).wf(),
            tag is Item,
            old(self).storage_of().weave_map().contains_key(tag.seq_of()),
            old(self).weave_of(tag.seq_of()).now() < u32::MAX,
            tag matches Tag::Item(_, p) ==> (p == Id::null_spec() || index_of(
                old(self).weave_of(tag.seq_of()).atom_seq(),
                p,
            ) >= 0),
        ensures
            final(self).removed(&*old(self), tag),
            final(self).replay_step(&*old(self)),
    {
        self.unlink(tag);
        let (seq, id) = match tag {
            Tag::Item(s, i) => (s, i),
            _ => {
                proof {
                    assert(false);
                }
                (tag.seq(), Id::null())
            },
        };
        let ghost pre = *self;
        let atom = self.add_new_atom(seq, id, AtomOp::Remove);
        let ghost mid = *self;
        self.pending.push(DocumentOp::SeqOp(seq, atom));
        proof {
            assert forall|s: SequenceId| s != seq implies #[trigger] self.weave_of(s) == old(self).weave_of(s) by {
                assert(mid.weave_of(s) == pre.weave_of(s));
            }
            assert(self.pending_seq().last() == DocumentOp::SeqOp(seq, atom));
            assert forall|s: SequenceId| s != seq implies #[trigger] self.storage_of().weave_map()[s]
                == old(self).storage_of().weave_map()[s] by {
                assert(self.weave_of(s) == old(self).weave_of(s));
            }
            assert(self.storage_of().holds_op(&old(self).storage_of(), DocumentOp::SeqOp(seq, atom)));
        }
    }

    /// Applies an operation that came from another site.  The atom of a
    /// sequence operation goes into its weave, and a sequence it holds is
    /// linked; then the storage applies the operation itself, which adds the
    /// atom once more.  Created words and symbols become findable by text.
    pub fn exec_op(&mut self, op: DocumentOp)
        requires
            old(self).wf(),
            op matches DocumentOp::SeqOp(id, atom) ==> old(self).storage_of().weave_map().contains_key(id)
                && can_add(old(self).weave_of(id).atom_seq(), atom),
        ensures
            final(self).wf(),
            final(self).site_of() == old(self).site_of(),
            final(self).root_of() == old(self).root_of(),
            final(self).pending_seq() == old(self).pending_seq(),
            match op {
                DocumentOp::SeqOp(id, atom) => {
                    let s0 = old(self).weave_of(id).atom_seq();
                    let s1 = s0.insert(add_slot(s0, atom), atom);
                    &&& final(self).storage_of().same_but(&old(self).storage_of(), 0)
                    &&& final(self).storage_of().weave_clock() == old(self).storage_of().weave_clock()
                    &&& final(self).storage_of().weave_map().dom() == old(self).storage_of().weave_map().dom()
                    &&& forall|s: SequenceId| s != id ==> #[trigger] final(self).weave_of(s) == old(self).weave_of(s)
                    &&& final(self).weave_of(id).atom_seq() == s1.insert(add_slot(s1, atom), atom)
                    &&& final(self).weave_of(id).type_of() == old(self).weave_of(id).type_of()
                    &&& final(self).weave_of(id).now() == later(old(self).weave_of(id).now(), atom.id.clock as int)
                    &&& final(self).parent_map() == (if holds_sequence(atom.op) {
                        linked(old(self).parent_map(), item_of(s1, atom.id), Tag::Item(id, atom.id))
                    } else {
                        old(self).parent_map()
                    })
                    &&& final(self).word_index() == old(self).word_index()
                    &&& final(self).symbol_index() == old(self).symbol_index()
                },
                DocumentOp::CreateWord(id, word) => {
                    &&& final(self).storage_of().applied(&old(self).storage_of(), op)
                    &&& final(self).parent_map() == old(self).parent_map()
                    &&& final(self).word_index() == old(self).word_index().insert(word.text@, id)
                    &&& final(self).symbol_index() == old(self).symbol_index()
                    &&& (old(self).texts_agree() && (old(self).storage_of().word_map().contains_key(id)
                        ==> old(self).storage_of().word_map()[id].text@ == word.text@)) ==> final(self).texts_agree()
                    &&& (old(self).own_keys_fresh() && (id.0 == old(self).site_of()
                        ==> id.1 < old(self).storage_of().word_clock())) ==> final(self).own_keys_fresh()
                },
                DocumentOp::CreateSymbol(id, symbol) => {
                    &&& final(self).storage_of().applied(&old(self).storage_of(), op)
                    &&& final(self).parent_map() == old(self).parent_map()
                    &&& final(self).word_index() == old(self).word_index()
                    &&& final(self).symbol_index() == old(self).symbol_index().insert(symbol.text@, id)
                    &&& (old(self).texts_agree() && (old(self).storage_of().symbol_map().contains_key(id)
                        ==> old(self).storage_of().symbol_map()[id].text@ == symbol.text@)) ==> final(self).texts_agree()
                    &&& (old(self).own_keys_fresh() && (id.0 == old(self).site_of()
                        ==> id.1 < old(self).storage_of().symbol_clock())) ==> final(self).own_keys_fresh()
                },
                _ => {
                    &&& final(self).storage_of().applied(&old(self).storage_of(), op)
                    &&& final(self).parent_map() == old(self).parent_map()
                    &&& final(self).word_index() == old(self).word_index()
                    &&& final(self).symbol_index() == old(self).symbol_index()
                },
            },
    {
        let ghost old_map = self.parent_map();
        let ghost d0 = *self;
        match &op {
            DocumentOp::SeqOp(id, atom) => {
                self.storage.add_atom(*id, *atom);
                let ghost st1 = self.storage;
                proof {
                    assert(self.parent_map() =~= old_map);
                }
                let links = match atom.op {
                    AtomOp::Add(Item::Sequence(_)) => true,
                    AtomOp::Replace(Item::Sequence(_)) => true,
                    _ => false,
                };
                if links {
                    self.link(Tag::Item(*id, atom.id));
                }
                proof {
                    assert(self.storage == st1);
                }
            },
            DocumentOp::CreateWord(id, word) => {
                self.words.insert(word.text.clone(), *id);
                proof {
                    assert(self.parent_map() =~= old_map);
                }
            },
            DocumentOp::CreateSymbol(id, symbol) => {
                self.symbols.insert(symbol.text.clone(), *id);
                proof {
                    assert(self.parent_map() =~= old_map);
                }
            },
            _ => {},
        }
        let ghost gop = op;
        self.storage.apply(op);
        proof {
            match gop {
                DocumentOp::CreateWord(id, word) => lemma_remote_word_sound(d0, *self, id, word),
                DocumentOp::CreateSymbol(id, symbol) => lemma_remote_symbol_sound(d0, *self, id, symbol),
                _ => {},
            }
        }
    }
}

impl Document {
    /// The tag before `tag` within its own sequence: none before the start;
    /// before an item that holds a sequence, the end of that sequence;
    /// otherwise the entry before (or the start where there is none).
    pub open spec fn previous_tag_within(&self, tag: Tag) -> Option<Tag> {
        let s = tag.seq_of();
        let w = self.weave_of(s);
        match tag {
            Tag::Start(_) => None,
            Tag::Item(_, id) => match item_of(w.atom_seq(), id) {
                Some(Item::Sequence(child)) => Some(Tag::End(child)),
                _ => Some(entry_tag(s, previous_of(w.item_seq(), id))),
            },
            Tag::End(_) => Some(entry_tag(s, last_entry(w.item_seq()))),
        }
    }

    /// The tag before `tag`, leaving a nested sequence at its start for the
    /// entry before the item that holds it.
    pub open spec fn previous_tag(&self, tag: Tag) -> Option<Tag> {
        match self.previous_tag_within(tag) {
            Some(t) => Some(t),
            None => if self.parent_map().contains_key(tag.seq_of()) {
                let p = self.parent_map()[tag.seq_of()];
                match p {
                    Tag::Item(ps, pid) => Some(entry_tag(ps, previous_of(self.weave_of(ps).item_seq(), pid))),
                    _ => None,
                }
            } else {
                None
            },
        }
    }

    /// The tag after `tag` within its own sequence: none after the end;
    /// otherwise the entry after (entered at its start where it holds a
    /// sequence), or the end where there is none.
    pub open spec fn next_tag_within(&self, tag: Tag) -> Option<Tag> {
        let s = tag.seq_of();
        let v = self.weave_of(s).item_seq();
        match tag {
            Tag::Start(_) => Some(entered(s, first_entry(v), Tag::End(s))),
            Tag::Item(_, id) => Some(entered(s, next_of(v, id), Tag::End(s))),
            Tag::End(_) => None,
        }
    }

    /// The tag after `tag`, leaving a nested sequence at its end for the
    /// entry after the item that holds it (or the start of the parent where
    /// there is none).
    pub open spec fn next_tag(&self, tag: Tag) -> Option<Tag> {
        match self.next_tag_within(tag) {
            Some(t) => Some(t),
            None => if self.parent_map().contains_key(tag.seq_of()) {
                let p = self.parent_map()[tag.seq_of()];
                match p {
                    Tag::Item(ps, pid) => Some(entered(ps, next_of(self.weave_of(ps).item_seq(), pid), Tag::Start(ps))),
                    _ => None,
                }
            } else {
                None
            },
        }
    }

    /// The tag before `tag` within its sequence (see `previous_tag_within`).
    pub fn get_previous_tag_bounded(&self, tag: Tag) -> (r: Option<Tag>)
        requires
            self.wf(),
            self.storage_of().weave_map().contains_key(tag.seq_of()),
            tag matches Tag::Item(_, id) ==> item_of(self.weave_of(tag.seq_of()).atom_seq(), id) is Some,
        ensures
            r == self.previous_tag_within(tag),
    {
        let seq = tag.seq();
        let weave = self.storage.get_weave(seq);
        match tag {
            Tag::Start(_) => None,
            Tag::Item(_, id) => match weave.get_item(id).unwrap() {
                Item::Sequence(child) => Some(Tag::End(child)),
                _ => match weave.get_previous(id) {
                    Some((p, _)) => Some(Tag::Item(seq, p)),
                    None => Some(Tag::Start(seq)),
                },
            },
            Tag::End(_) => match weave.get_last() {
                Some((p, _)) => Some(Tag::Item(seq, p)),
                None => Some(Tag::Start(seq)),
            },
        }
    }

    /// The tag before `tag`, across the bounds of nested sequences (see
    /// `previous_tag`); none at the start of a sequence without parent.
    pub fn get_previous_tag(&self, tag: Tag) -> (r: Option<Tag>)
        requires
            self.wf(),
            self.storage_of().weave_map().contains_key(tag.seq_of()),
            tag matches Tag::Item(_, id) ==> item_of(self.weave_of(tag.seq_of()).atom_seq(), id) is Some,
        ensures
            r == self.previous_tag(tag),
    {
        if let Some(t) = self.get_previous_tag_bounded(tag) {
            return Some(t);
        }
        proof {
            self.lemma_parents();
        }
        let parent_tag = self.get_parent_tag(tag)?;
        let parent_seq = parent_tag.seq();
        let parent = self.storage.get_weave(parent_seq);
        let parent_item_id = parent_tag.item().unwrap();
        match parent.get_previous(parent_item_id) {
            Some((id, _)) => Some(Tag::Item(parent_seq, id)),
            None => Some(Tag::Start(parent_seq)),
        }
    }

    /// The tag after `tag` within its sequence (see `next_tag_within`).
    pub fn get_next_tag_bounded(&self, tag: Tag) -> (r: Option<Tag>)
        requires
            self.wf(),
            self.storage_of().weave_map().contains_key(tag.seq_of()),
        ensures
            r == self.next_tag_within(tag),
    {
        let seq = tag.seq();
        let weave = self.storage.get_weave(seq);
        let next = match tag {
            Tag::Start(_) => weave.get_first(),
            Tag::Item(_, id) => weave.get_next(id),
            Tag::End(_) => {
                return None;
            },
        };
        match next {
            Some((_, Item::Sequence(child))) => Some(Tag::Start(child)),
            Some((id, _)) => Some(Tag::Item(seq, id)),
            None => Some(Tag::End(seq)),
        }
    }

    /// The tag after `tag`, across the bounds of nested sequences (see
    /// `next_tag`); none at the end of a sequence without parent.
    pub fn get_next_tag(&self, tag: Tag) -> (r: Option<Tag>)
        requires
            self.wf(),
            self.storage_of().weave_map().contains_key(tag.seq_of()),
        ensures
            r == self.next_tag(tag),
    {
        if let Some(t) = self.get_next_tag_bounded(tag) {
            return Some(t);
        }
        proof {
            self.lemma_parents();
        }
        let parent_tag = self.get_parent_tag(tag)?;
        let parent_seq = parent_tag.seq();
        let parent = self.storage.get_weave(parent_seq);
        let parent_item_id = parent_tag.item().unwrap();
        match parent.get_next(parent_item_id) {
            Some((_, Item::Sequence(child))) => Some(Tag::Start(child)),
            Some((id, _)) => Some(Tag::Item(parent_seq, id)),
            None => Some(Tag::Start(parent_seq)),
        }
    }
}

impl Document {
    /// The tags of the items of `parent`, in order.  (Walking into a nested
    /// sequence would start over on the items of `parent` itself and never
    /// end, so `parent` may hold no sequence.)
    pub fn childen(&self, parent: SequenceId) -> (r: Vec<Tag>)
        requires
            self.wf(),
            self.storage_of().weave_map().contains_key(parent),
            forall|i: int| 0 <= i < self.weave_of(parent).item_seq().len()
                ==> !(#[trigger] self.weave_of(parent).item_seq()[i].1 is Sequence),
        ensures
            r@ == self.weave_of(parent).item_seq().map_values(|e: (Id, Item)| Tag::Item(parent, e.0)),
    {
        let items = self.storage.get_weave(parent).items();
        let ghost v = items@;
        let mut out: Vec<Tag> = Vec::new();
        let mut k: usize = 0;
        while k < items.len()
            invariant
                v == items@,
                v == self.weave_of(parent).item_seq(),
                forall|i: int| 0 <= i < v.len() ==> !(#[trigger] v[i].1 is Sequence),
                0 <= k <= v.len(),
                out@ == v.take(k as int).map_values(|e: (Id, Item)| Tag::Item(parent, e.0)),
            decreases v.len() - k,
        {
            let (item_id, item) = items[k];
            match item {
                Item::Sequence(_) => {
                    proof {
                        assert(v[k as int].1 is Sequence);
                    }
                },
                _ => {
                    out.push(Tag::Item(parent, item_id));
                },
            }
            proof {
                assert(v.take(k + 1) =~= v.take(k as int).push(v[k as int]));
            }
            k = k + 1;
            assert(out@ =~= v.take(k as int).map_values(|e: (Id, Item)| Tag::Item(parent, e.0)));
        }
        assert(v.take(v.len() as int) =~= v);
        out
    }

    /// The symbol with the given text: the one there is, or a new one made
    /// from its single character (with an operation to send).
    pub fn create_symbol(&mut self, text: &str) -> (id: SymbolId)
        requires
            old(self).wf(),
            !old(self).symbol_index().contains_key(text@) ==> text@.len() == 1
                && old(self).storage_of().symbol_clock() < u32::MAX,
        ensures
            final(self).symbol_created(&*old(self), text@, id),
            final(self).replay_step(&*old(self)),
    {
        match self.find_symbol(text) {
            Some(id) => {
                proof {
                    lemma_known_symbol(*old(self), text@);
                }
                id
            },
            None => {
                let c = text.get_char(0);
                let initial = initial_quote(c);
                let fin = final_quote(c);
                let opens = open_punct(c);
                let closes = close_punct(c);
                let leading = initial || opens;
                let trailing = fin || closes;
                let overflow_left: u8 = if initial { 1 } else { 0 };
                let overflow_right: u8 = if fin { 1 } else { 0 };
                let ghost old_symbols = self.storage.symbols@;
                let symbol = Symbol { text: text.to_owned(), leading, trailing, overflow_left, overflow_right };
                let id = self.add_symbol(symbol);
                proof {
                    assert(self.storage.symbols@.dom() =~= old_symbols.dom().insert(id));
                }
                id
            },
        }
    }
}

impl Document {
    /// The items that pieces of text become, in order: nothing for a piece
    /// that starts with white space, the word of a piece that starts with a
    /// letter or a number, the symbol of any other piece (each created where
    /// it is not there yet).
    pub fn create_items(&mut self, parts: &Vec<String>) -> (r: Vec<Item>)
        requires
            old(self).wf(),
            forall|j: int| 0 <= j < parts@.len() ==> (#[trigger] parts@[j])@.len() > 0,
            forall|j: int| 0 <= j < parts@.len() && piece_kind((#[trigger] parts@[j])@) == 2
                && !old(self).symbol_index().contains_key(parts@[j]@) ==> parts@[j]@.len() == 1,
            old(self).storage_of().word_clock() + parts@.len() <= u32::MAX,
            old(self).storage_of().symbol_clock() + parts@.len() <= u32::MAX,
        ensures
            final(self).items_created(&*old(self), parts@.map_values(|t: String| t@), r@),
    {
        let ghost ps = parts@.map_values(|t: String| t@);
        let ghost start = *self;
        let ghost site = self.site;
        let ghost w0 = self.word_index();
        let ghost s0 = self.symbol_index();
        let ghost wc0 = self.storage_of().word_clock();
        let ghost sc0 = self.storage_of().symbol_clock();
        proof {
            self.storage.lemma_clock_ranges();
            assert(ps.take(0) =~= Seq::<Seq<char>>::empty());
            assert(self.pending_seq().take(self.pending_seq().len() as int) =~= self.pending_seq());
            assert(self.pending_seq().skip(self.pending_seq().len() as int) =~= Seq::<DocumentOp>::empty());
        }
        let mut out: Vec<Item> = Vec::new();
        let mut i: usize = 0;
        while i < parts.len()
            invariant
                0 <= i <= parts@.len(),
                ps == parts@.map_values(|t: String| t@),
                site == start.site_of(),
                w0 == start.word_index(),
                s0 == start.symbol_index(),
                wc0 == start.storage_of().word_clock(),
                sc0 == start.storage_of().symbol_clock(),
                0 <= wc0,
                0 <= sc0,
                wc0 + parts@.len() <= u32::MAX,
                sc0 + parts@.len() <= u32::MAX,
                forall|j: int| 0 <= j < parts@.len() ==> (#[trigger] parts@[j])@.len() > 0,
                forall|j: int| 0 <= j < parts@.len() && piece_kind((#[trigger] parts@[j])@) == 2
                    && !s0.contains_key(parts@[j]@) ==> parts@[j]@.len() == 1,
                self.text_progress(&start, ps.take(i as int), out@),
            decreases parts@.len() - i,
        {
            let part = parts[i].as_str();
            let ghost p = ps[i as int];
            let ghost pre = *self;
            let ghost pre_out = out@;
            proof {
                assert(p == parts@[i as int]@);
                assert(ps.take(i + 1) =~= ps.take(i as int).push(p));
                lemma_words_after(w0, wc0, site, ps.take(i as int));
                lemma_symbols_after(s0, sc0, site, ps.take(i as int));
            }
            let c = part.get_char(0);
            if white_space(c) {
                assert(piece_kind(p) == 0);
                proof {
                    self.lemma_after_space(&start, ps.take(i as int), p, out@);
                }
            } else if letter(c) || number(c) {
                assert(piece_kind(p) == 1);
                let id = self.create_word(part);
                out.push(Item::Word(id));
                proof {
                    self.lemma_after_word(&pre, &start, ps.take(i as int), p, pre_out, out@, id);
                }
            } else {
                assert(piece_kind(p) == 2);
                let id = self.create_symbol(part);
                out.push(Item::Symbol(id));
                proof {
                    self.lemma_after_symbol(&pre, &start, ps.take(i as int), p, pre_out, out@, id);
                }
            }
            i = i + 1;
        }
        proof {
            assert(ps.take(parts@.len() as int) =~= ps);
        }
        out
    }
}

impl Document {
    /// `self` is `old` after the pieces `ps` became the items `r`: the
    /// indexes and clocks are those `words_after` and `symbols_after` give,
    /// the new words and symbols stand in the storage (nothing else of it
    /// changed), the operations that create them were pushed in the order
    /// of the pieces (see `ops_made`), and the items are those `items_of`
    /// gives.
    pub open spec fn items_created(&self, old: &Document, ps: Seq<Seq<char>>, r: Seq<Item>) -> bool {
        let site = old.site_of();
        let st0 = old.storage_of();
        let st1 = self.storage_of();
        let (wi, wc) = words_after(old.word_index(), st0.word_clock(), site, ps);
        let (si, sc) = symbols_after(old.symbol_index(), st0.symbol_clock(), site, ps);
        &&& self.wf()
        &&& self.same_frame(old)
        &&& self.word_index() == wi
        &&& self.symbol_index() == si
        &&& st1.same_but_text(&st0)
        &&& st1.word_clock() == wc
        &&& st1.symbol_clock() == sc
        &&& words_made(st1.word_map(), st0.word_map(), wi, old.word_index(), site, st0.word_clock(), wc)
        &&& symbols_made(st1.symbol_map(), st0.symbol_map(), si, old.symbol_index(), site, st0.symbol_clock(), sc)
        &&& self.pending_seq().len() >= old.pending_seq().len()
        &&& self.pending_seq().take(old.pending_seq().len() as int) == old.pending_seq()
        &&& ops_made(self.pending_seq().skip(old.pending_seq().len() as int), old.word_index(), st0.word_clock(),
            old.symbol_index(), st0.symbol_clock(), site, ps)
        &&& r == items_of(ps, wi, si)
    }

    /// Whether `create_items` takes the pieces: none is empty, and each
    /// symbol piece is one character or a symbol there is already.
    pub open spec fn pieces_fit(&self, ps: Seq<Seq<char>>) -> bool {
        &&& forall|j: int| 0 <= j < ps.len() ==> (#[trigger] ps[j]).len() > 0
        &&& forall|j: int| 0 <= j < ps.len() && piece_kind(#[trigger] ps[j]) == 2
            && !self.symbol_index().contains_key(ps[j]) ==> ps[j].len() == 1
    }

    /// The items of a text: the text cut at its word boundaries, each piece
    /// made an item by `create_items`.
    pub fn create_text(&mut self, text: &str) -> (r: Vec<Item>)
        requires
            old(self).wf(),
            old(self).pieces_fit(word_segments(text@)),
            old(self).storage_of().word_clock() + text@.len() <= u32::MAX,
            old(self).storage_of().symbol_clock() + text@.len() <= u32::MAX,
        ensures
            final(self).items_created(&*old(self), word_segments(text@), r@),
            r@.len() <= text@.len(),
            final(self).storage_of().word_clock() <= old(self).storage_of().word_clock() + text@.len(),
            final(self).storage_of().symbol_clock() <= old(self).storage_of().symbol_clock() + text@.len(),
            forall|k: Seq<char>| #[trigger] old(self).symbol_index().contains_key(k)
                ==> final(self).symbol_index().contains_key(k),
    {
        let parts = word_bounds(text);
        let ghost ps = parts@.map_values(|t: String| t@);
        let ghost start = *self;
        proof {
            lemma_pieces_count(ps);
            assert forall|j: int| 0 <= j < parts@.len() implies (#[trigger] parts@[j])@.len() > 0 by {
                assert(ps[j] == parts@[j]@);
            }
            assert forall|j: int| 0 <= j < parts@.len() && piece_kind((#[trigger] parts@[j])@) == 2
                && !self.symbol_index().contains_key(parts@[j]@) implies parts@[j]@.len() == 1 by {
                assert(ps[j] == parts@[j]@);
            }
            self.storage.lemma_clock_ranges();
        }
        let r = self.create_items(&parts);
        proof {
            lemma_words_after(start.word_index(), start.storage_of().word_clock(), start.site_of(), ps);
            lemma_symbols_after(start.symbol_index(), start.storage_of().symbol_clock(), start.site_of(), ps);
            let (wi, wc) = words_after(start.word_index(), start.storage_of().word_clock(), start.site_of(), ps);
            let (si, sc) = symbols_after(start.symbol_index(), start.storage_of().symbol_clock(), start.site_of(), ps);
            lemma_items_len(ps, wi, si);
        }
        r
    }

    /// Whether `create_text` takes the text: whether its pieces fit (see
    /// `pieces_fit`).
    pub fn text_fits(&self, text: &str) -> (r: bool)
        requires
            self.wf(),
        ensures
            r == self.pieces_fit(word_segments(text@)),
    {
        let parts = word_bounds(text);
        let ghost ps = parts@.map_values(|t: String| t@);
        let mut k: usize = 0;
        while k < parts.len()
            invariant
                ps == parts@.map_values(|t: String| t@),
                ps == word_segments(text@),
                0 <= k <= parts@.len(),
                self.wf(),
                forall|j: int| 0 <= j < k ==> (#[trigger] ps[j]).len() > 0,
                forall|j: int| 0 <= j < k && piece_kind(#[trigger] ps[j]) == 2
                    && !self.symbol_index().contains_key(ps[j]) ==> ps[j].len() == 1,
            decreases parts@.len() - k,
        {
            let part = parts[k].as_str();
            proof {
                assert(ps[k as int] == part@);
            }
            let n = part.unicode_len();
            if n == 0 {
                return false;
            }
            let c = part.get_char(0);
            if !white_space(c) && !(letter(c) || number(c)) && n != 1 {
                if self.find_symbol(part).is_none() {
                    return false;
                }
            }
            k = k + 1;
        }
        true
    }

    /// The items of a text as `create_text` makes them, where the pieces of
    /// the text fit (see `pieces_fit`); otherwise nothing, and nothing
    /// changes.
    pub fn try_create_text(&mut self, text: &str) -> (r: Option<Vec<Item>>)
        requires
            old(self).wf(),
            old(self).storage_of().word_clock() + text@.len() <= u32::MAX,
            old(self).storage_of().symbol_clock() + text@.len() <= u32::MAX,
        ensures
            r is Some <==> old(self).pieces_fit(word_segments(text@)),
            r matches Some(items) ==> final(self).items_created(&*old(self), word_segments(text@), items@),
            r is None ==> *final(self) == *old(self),
    {
        if self.text_fits(text) {
            Some(self.create_text(text))
        } else {
            None
        }
    }
}

/// The tag holds `child`: it is an entry of a weave of the storage whose
/// item is the sequence `child`.
pub open spec fn holds_at(st: Storage, child: SequenceId, tag: Tag) -> bool {
    match tag {
        Tag::Item(s, id) => st.weave_map().contains_key(s) && st.weave_map()[s].item_seq().contains(
            (id, Item::Sequence(child)),
        ),
        _ => false,
    }
}

/// Some weave of the storage holds the sequence `child`.
pub open spec fn is_held(st: Storage, child: SequenceId) -> bool {
    exists|s: SequenceId, k: int|
        #![trigger st.weave_map()[s].item_seq()[k]]
        st.weave_map().contains_key(s) && 0 <= k < st.weave_map()[s].item_seq().len()
            && st.weave_map()[s].item_seq()[k].1 == Item::Sequence(child)
}

impl Document {
    /// A document over a storage made elsewhere: each nested sequence is
    /// found where some weave holds it, and the words and symbols by their
    /// texts.  (Where two entries share a text, or a sequence stands in two
    /// places, either may be found.)
    pub fn from_storage(storage: Storage, root: SequenceId, site: SiteId) -> (r: Document)
        requires
            storage.wf(),
        ensures
            r.wf(),
            r.storage_of() == storage,
            r.site_of() == site,
            r.root_of() == Some(root),
            r.pending_seq() == Seq::<DocumentOp>::empty(),
            forall|c: SequenceId| #[trigger] r.parent_map().contains_key(c) <==> is_held(storage, c),
            forall|c: SequenceId| #[trigger] r.parent_map().contains_key(c) ==> holds_at(storage, c, r.parent_map()[c]),
            forall|t: Seq<char>| #[trigger] r.word_index().contains_key(t) <==> exists|id: WordId|
                #[trigger] storage.word_map().contains_key(id) && storage.word_map()[id].text@ == t,
            forall|t: Seq<char>| #[trigger] r.word_index().contains_key(t) ==> storage.word_map().contains_key(r.word_index()[t])
                && storage.word_map()[r.word_index()[t]].text@ == t,
            forall|t: Seq<char>| #[trigger] r.symbol_index().contains_key(t) <==> exists|id: SymbolId|
                #[trigger] storage.symbol_map().contains_key(id) && storage.symbol_map()[id].text@ == t,
            forall|t: Seq<char>| #[trigger] r.symbol_index().contains_key(t) ==> storage.symbol_map().contains_key(r.symbol_index()[t])
                && storage.symbol_map()[r.symbol_index()[t]].text@ == t,
            r.texts_agree(),
    {
        let parents = parents_of(&storage);
        let words = word_texts(&storage);
        let symbols = symbol_texts(&storage);
        let r = Document { storage, site, pending: Vec::new(), parents, words, symbols, root: Some(root) };
        proof {
            assert forall|c: SequenceId| #[trigger] r.parent_map().contains_key(c) implies holds_at(storage, c, r.parent_map()[c]) by {
                assert(r.parents@.contains_key(key_code(c)));
            }
            reveal(Document::texts_agree);
        }
        r
    }
}

/// The places of the nested sequences, keyed by the code of the sequence.
fn parents_of(storage: &Storage) -> (r: HashMap<u64, Tag>)
    requires
        storage.wf(),
    ensures
        forall|c: SequenceId| #[trigger] r@.contains_key(key_code(c)) <==> is_held(*storage, c),
        forall|c: SequenceId| #[trigger] r@.contains_key(key_code(c)) ==> holds_at(*storage, c, r@[key_code(c)]),
        forall|k: u64| #[trigger] r@.contains_key(k) ==> exists|c: SequenceId| key_code(c) == k,
{
    let entries = storage.weaves.iter();
    let mut parents: HashMap<u64, Tag> = HashMap::new();
    let mut i: usize = 0;
    while i < entries.len()
        invariant
            storage.wf(),
            0 <= i <= entries@.len(),
            entries@.len() == storage.weaves.entry_seq().len(),
            forall|j: int| 0 <= j < entries@.len() ==> storage.weaves@.contains_key(#[trigger] entries@[j].0)
                && storage.weaves@[entries@[j].0] == *entries@[j].1,
            forall|s: SequenceId| #[trigger] storage.weaves@.contains_key(s) ==> exists|j: int|
                0 <= j < entries@.len() && entries@[j].0 == s,
            forall|k: u64| #[trigger] parents@.contains_key(k) ==> exists|c: SequenceId| key_code(c) == k
                && holds_at(*storage, c, parents@[k]),
            forall|j: int, k: int, c: SequenceId|
                #![trigger entries@[j], storage.weaves@[entries@[j].0].item_seq()[k], key_code(c)]
                0 <= j < i && 0 <= k < storage.weaves@[entries@[j].0].item_seq().len()
                    && storage.weaves@[entries@[j].0].item_seq()[k].1 == Item::Sequence(c)
                    ==> parents@.contains_key(key_code(c)),
        decreases entries@.len() - i,
    {
        let (seq_id, weave) = entries[i];
        let items = weave.items();
        let mut k: usize = 0;
        while k < items.len()
            invariant
                storage.wf(),
                0 <= i < entries@.len(),
                0 <= k <= items@.len(),
                seq_id == entries@[i as int].0,
                items@ == storage.weaves@[seq_id].item_seq(),
                storage.weaves@.contains_key(seq_id),
                forall|k2: u64| #[trigger] parents@.contains_key(k2) ==> exists|c: SequenceId| key_code(c) == k2
                    && holds_at(*storage, c, parents@[k2]),
                forall|j: int, k2: int, c: SequenceId|
                    #![trigger entries@[j], storage.weaves@[entries@[j].0].item_seq()[k2], key_code(c)]
                    0 <= j < i && 0 <= k2 < storage.weaves@[entries@[j].0].item_seq().len()
                        && storage.weaves@[entries@[j].0].item_seq()[k2].1 == Item::Sequence(c)
                        ==> parents@.contains_key(key_code(c)),
                forall|k2: int, c: SequenceId|
                    #![trigger items@[k2], key_code(c)]
                    0 <= k2 < k && items@[k2].1 == Item::Sequence(c) ==> parents@.contains_key(key_code(c)),
            decreases items@.len() - k,
        {
            let (item_id, item) = items[k];
            match item {
                Item::Sequence(child) => {
                    let c = stamp_code_of(child.site(), child.value());
                    let ghost old_parents = parents@;
                    parents.insert(c, Tag::Item(seq_id, item_id));
                    proof {
                        assert(items@.contains((item_id, Item::Sequence(child)))) by {
                            assert(items@[k as int] == (item_id, Item::Sequence(child)));
                        }
                        assert(holds_at(*storage, child, Tag::Item(seq_id, item_id)));
                        assert forall|k2: u64| #[trigger] parents@.contains_key(k2) implies exists|c2: SequenceId| key_code(c2) == k2
                            && holds_at(*storage, c2, parents@[k2]) by {
                            if k2 != c {
                                assert(old_parents.contains_key(k2));
                            } else {
                                assert(key_code(child) == k2);
                            }
                        }
                    }
                },
                _ => {},
            }
            k = k + 1;
        }
        i = i + 1;
    }
    proof {
        assert forall|c: SequenceId| #[trigger] parents@.contains_key(key_code(c)) implies holds_at(*storage, c, parents@[key_code(c)]) by {
            let c2 = choose|c2: SequenceId| key_code(c2) == key_code(c) && holds_at(*storage, c2, parents@[key_code(c)]);
            lemma_key_code_injective(c2, c);
        }
        assert forall|c: SequenceId| #[trigger] parents@.contains_key(key_code(c)) <==> is_held(*storage, c) by {
            if parents@.contains_key(key_code(c)) {
                let t = parents@[key_code(c)];
                let s = t.seq_of();
                let id = match t { Tag::Item(_, x) => x, _ => Id::null_spec() };
                let k = choose|k: int| 0 <= k < storage.weaves@[s].item_seq().len() && storage.weaves@[s].item_seq()[k] == (id, Item::Sequence(c));
                assert(storage.weave_map()[s].item_seq()[k].1 == Item::Sequence(c));
            }
            if is_held(*storage, c) {
                let (s, k) = choose|s: SequenceId, k: int|
                    #![trigger storage.weave_map()[s].item_seq()[k]]
                    storage.weave_map().contains_key(s) && 0 <= k < storage.weave_map()[s].item_seq().len()
                    && storage.weave_map()[s].item_seq()[k].1 == Item::Sequence(c);
                let j = choose|j: int| 0 <= j < entries@.len() && entries@[j].0 == s;
                assert(storage.weaves@[entries@[j].0].item_seq()[k].1 == Item::Sequence(c));
            }
        }
    }
    parents
}

/// An index of the words by their texts.
fn word_texts(storage: &Storage) -> (r: NameIndex<WordId>)
    requires
        storage.wf(),
    ensures
        r.wf(),
        forall|t: Seq<char>| #[trigger] r@.contains_key(t) <==> exists|id: WordId|
            #[trigger] storage.word_map().contains_key(id) && storage.word_map()[id].text@ == t,
        forall|t: Seq<char>| #[trigger] r@.contains_key(t) ==> storage.word_map().contains_key(r@[t])
            && storage.word_map()[r@[t]].text@ == t,
{
    let entries = storage.words.iter();
    let mut index: NameIndex<WordId> = NameIndex::new();
    let mut i: usize = 0;
    while i < entries.len()
        invariant
            0 <= i <= entries@.len(),
            index.wf(),
            forall|j: int| 0 <= j < entries@.len() ==> storage.words@.contains_key(#[trigger] entries@[j].0)
                && storage.words@[entries@[j].0] == *entries@[j].1,
            forall|id: WordId| #[trigger] storage.words@.contains_key(id) ==> exists|j: int|
                0 <= j < entries@.len() && entries@[j].0 == id,
            forall|t: Seq<char>| #[trigger] index@.contains_key(t) ==> storage.word_map().contains_key(index@[t])
                && storage.word_map()[index@[t]].text@ == t,
            forall|j: int| 0 <= j < i ==> index@.contains_key((#[trigger] entries@[j]).1.text@),
        decreases entries@.len() - i,
    {
        let (id, word) = entries[i];
        index.insert(word.text.clone(), id);
        i = i + 1;
    }
    proof {
        assert forall|t: Seq<char>| #[trigger] index@.contains_key(t) <==> exists|id: WordId|
            #[trigger] storage.word_map().contains_key(id) && storage.word_map()[id].text@ == t by {
            if index@.contains_key(t) {
                assert(storage.word_map().contains_key(index@[t]));
            }
            if exists|id: WordId| #[trigger] storage.word_map().contains_key(id) && storage.word_map()[id].text@ == t {
                let id = choose|id: WordId| #[trigger] storage.word_map().contains_key(id) && storage.word_map()[id].text@ == t;
                let j = choose|j: int| 0 <= j < entries@.len() && entries@[j].0 == id;
                assert(index@.contains_key(entries@[j].1.text@));
            }
        }
    }
    index
}

/// An index of the symbols by their texts.
fn symbol_texts(storage: &Storage) -> (r: NameIndex<SymbolId>)
    requires
        storage.wf(),
    ensures
        r.wf(),
        forall|t: Seq<char>| #[trigger] r@.contains_key(t) <==> exists|id: SymbolId|
            #[trigger] storage.symbol_map().contains_key(id) && storage.symbol_map()[id].text@ == t,
        forall|t: Seq<char>| #[trigger] r@.contains_key(t) ==> storage.symbol_map().contains_key(r@[t])
            && storage.symbol_map()[r@[t]].text@ == t,
{
    let entries = storage.symbols.iter();
    let mut index: NameIndex<SymbolId> = NameIndex::new();
    let mut i: usize = 0;
    while i < entries.len()
        invariant
            0 <= i <= entries@.len(),
            index.wf(),
            forall|j: int| 0 <= j < entries@.len() ==> storage.symbols@.contains_key(#[trigger] entries@[j].0)
                && storage.symbols@[entries@[j].0] == *entries@[j].1,
            forall|id: SymbolId| #[trigger] storage.symbols@.contains_key(id) ==> exists|j: int|
                0 <= j < entries@.len() && entries@[j].0 == id,
            forall|t: Seq<char>| #[trigger] index@.contains_key(t) ==> storage.symbol_map().contains_key(index@[t])
                && storage.symbol_map()[index@[t]].text@ == t,
            forall|j: int| 0 <= j < i ==> index@.contains_key((#[trigger] entries@[j]).1.text@),
        decreases entries@.len() - i,
    {
        let (id, symbol) = entries[i];
        index.insert(symbol.text.clone(), id);
        i = i + 1;
    }
    proof {
        assert forall|t: Seq<char>| #[trigger] index@.contains_key(t) <==> exists|id: SymbolId|
            #[trigger] storage.symbol_map().contains_key(id) && storage.symbol_map()[id].text@ == t by {
            if index@.contains_key(t) {
                assert(storage.symbol_map().contains_key(index@[t]));
            }
            if exists|id: SymbolId| #[trigger] storage.symbol_map().contains_key(id) && storage.symbol_map()[id].text@ == t {
                let id = choose|id: SymbolId| #[trigger] storage.symbol_map().contains_key(id) && storage.symbol_map()[id].text@ == t;
                let j = choose|j: int| 0 <= j < entries@.len() && entries@[j].0 == id;
                assert(index@.contains_key(entries@[j].1.text@));
            }
        }
    }
    index
}

/// Pieces that are none of them empty are no more than the characters
/// they join to.
pub proof fn lemma_pieces_count(ps: Seq<Seq<char>>)
    requires
        forall|j: int| 0 <= j < ps.len() ==> (#[trigger] ps[j]).len() > 0,
    ensures
        ps.len() <= ps.flatten().len(),
    decreases ps.len(),
{
    if ps.len() > 0 {
        assert forall|j: int| 0 <= j < ps.drop_first().len() implies (#[trigger] ps.drop_first()[j]).len() > 0 by {
            assert(ps.drop_first()[j] == ps[j + 1]);
        }
        lemma_pieces_count(ps.drop_first());
        assert(ps[0].len() > 0);
    }
}

/// Pieces become no more items than there are pieces.
pub proof fn lemma_items_len(ps: Seq<Seq<char>>, words: Map<Seq<char>, WordId>, symbols: Map<Seq<char>, SymbolId>)
    ensures
        items_of(ps, words, symbols).len() <= ps.len(),
    decreases ps.len(),
{
    if ps.len() > 0 {
        lemma_items_len(ps.drop_last(), words, symbols);
    }
}

impl Document {
    /// The state of `create_items` after the pieces `done`, started from
    /// `start`, with `out` the items so far.
    spec fn text_progress(&self, start: &Document, done: Seq<Seq<char>>, out: Seq<Item>) -> bool {
        let site = start.site_of();
        let w0 = start.word_index();
        let s0 = start.symbol_index();
        let st0 = start.storage_of();
        let st = self.storage_of();
        &&& self.wf()
        &&& self.same_frame(start)
        &&& (self.word_index(), st.word_clock()) == words_after(w0, st0.word_clock(), site, done)
        &&& (self.symbol_index(), st.symbol_clock()) == symbols_after(s0, st0.symbol_clock(), site, done)
        &&& st.same_but_text(&st0)
        &&& words_made(st.word_map(), st0.word_map(), self.word_index(), w0, site, st0.word_clock(), st.word_clock())
        &&& symbols_made(st.symbol_map(), st0.symbol_map(), self.symbol_index(), s0, site, st0.symbol_clock(),
            st.symbol_clock())
        &&& self.pending_seq().len() >= start.pending_seq().len()
        &&& self.pending_seq().take(start.pending_seq().len() as int) == start.pending_seq()
        &&& ops_made(self.pending_seq().skip(start.pending_seq().len() as int), w0, st0.word_clock(), s0,
            st0.symbol_clock(), site, done)
        &&& out == items_of(done, self.word_index(), self.symbol_index())
    }

    proof fn lemma_after_space(&self, start: &Document, done: Seq<Seq<char>>, p: Seq<char>, out: Seq<Item>)
        requires
            self.text_progress(start, done, out),
            piece_kind(p) == 0,
        ensures
            self.text_progress(start, done.push(p), out),
    {
        assert(done.push(p).drop_last() =~= done);
    }

    proof fn lemma_after_word(
        &self,
        pre: &Document,
        start: &Document,
        done: Seq<Seq<char>>,
        p: Seq<char>,
        pre_out: Seq<Item>,
        out: Seq<Item>,
        id: WordId,
    )
        requires
            pre.text_progress(start, done, pre_out),
            0 <= start.storage_of().word_clock(),
            start.storage_of().word_clock() + done.len() + 1 <= u32::MAX,
            0 <= start.storage_of().symbol_clock(),
            start.storage_of().symbol_clock() + done.len() + 1 <= u32::MAX,
            piece_kind(p) == 1,
            out == pre_out.push(Item::Word(id)),
            self.wf(),
            self.same_frame(pre),
            self.symbol_index() == pre.symbol_index(),
            pre.word_index().contains_key(p) ==> {
                &&& id == pre.word_index()[p]
                &&& self.storage_of() == pre.storage_of()
                &&& self.word_index() == pre.word_index()
                &&& self.pending_seq() == pre.pending_seq()
            },
            !pre.word_index().contains_key(p) ==> {
                &&& id == WordId(pre.site_of(), pre.storage_of().word_clock() as u32)
                &&& self.storage_of().same_but(&pre.storage_of(), 1)
                &&& self.storage_of().word_clock() == pre.storage_of().word_clock() + 1
                &&& map_put(self.storage_of().word_map(), pre.storage_of().word_map(), id)
                &&& self.storage_of().word_map()[id].text@ == p
                &&& self.word_index() == pre.word_index().insert(p, id)
                &&& pushed(self.pending_seq(), pre.pending_seq(),
                    |op: DocumentOp| op matches DocumentOp::CreateWord(i, w) && i == id && w.text@ == p)
            },
        ensures
            self.text_progress(start, done.push(p), out),
    {
        let site = start.site_of();
        let w0 = start.word_index();
        let s0 = start.symbol_index();
        let st0 = start.storage_of();
        let wc0 = st0.word_clock();
        assert(done.push(p).drop_last() =~= done);
        lemma_words_after(w0, wc0, site, done);
        lemma_symbols_after(s0, st0.symbol_clock(), site, done);
        lemma_items_stable(done, pre.word_index(), pre.symbol_index(), self.word_index(), self.symbol_index());
        if !pre.word_index().contains_key(p) {
            let wc = pre.storage_of().word_clock();
            assert forall|k: Seq<char>| #[trigger] self.word_index().contains_key(k) && !w0.contains_key(k)
                implies self.storage_of().word_map()[self.word_index()[k]].text@ == k by {
                if k != p {
                    assert(pre.word_index().contains_key(k));
                    assert(words_after(w0, wc0, site, done).0 == pre.word_index());
                    assert(words_after(w0, wc0, site, done).1 == wc);
                    assert(!w0.contains_key(k));
                    assert(pre.word_index()[k].1 < wc);
                }
            }
            let n0 = start.pending_seq().len() as int;
            let op = self.pending_seq().last();
            assert(self.pending_seq().take(n0) =~= pre.pending_seq().take(n0));
            assert(self.pending_seq().skip(n0) =~= pre.pending_seq().skip(n0).push(op));
            assert(self.pending_seq().skip(n0).drop_last() =~= pre.pending_seq().skip(n0));
        }
    }

    proof fn lemma_after_symbol(
        &self,
        pre: &Document,
        start: &Document,
        done: Seq<Seq<char>>,
        p: Seq<char>,
        pre_out: Seq<Item>,
        out: Seq<Item>,
        id: SymbolId,
    )
        requires
            pre.text_progress(start, done, pre_out),
            0 <= start.storage_of().word_clock(),
            start.storage_of().word_clock() + done.len() + 1 <= u32::MAX,
            0 <= start.storage_of().symbol_clock(),
            start.storage_of().symbol_clock() + done.len() + 1 <= u32::MAX,
            piece_kind(p) == 2,
            out == pre_out.push(Item::Symbol(id)),
            self.wf(),
            self.same_frame(pre),
            self.word_index() == pre.word_index(),
            pre.symbol_index().contains_key(p) ==> {
                &&& id == pre.symbol_index()[p]
                &&& self.storage_of() == pre.storage_of()
                &&& self.symbol_index() == pre.symbol_index()
                &&& self.pending_seq() == pre.pending_seq()
            },
            !pre.symbol_index().contains_key(p) ==> {
                &&& id == SymbolId(pre.site_of(), pre.storage_of().symbol_clock() as u32)
                &&& self.storage_of().same_but(&pre.storage_of(), 2)
                &&& self.storage_of().symbol_clock() == pre.storage_of().symbol_clock() + 1
                &&& map_put(self.storage_of().symbol_map(), pre.storage_of().symbol_map(), id)
                &&& symbol_of(self.storage_of().symbol_map()[id], p)
                &&& self.symbol_index() == pre.symbol_index().insert(p, id)
                &&& pushed(self.pending_seq(), pre.pending_seq(),
                    |op: DocumentOp| op matches DocumentOp::CreateSymbol(i, s) && i == id && symbol_of(s, p))
            },
        ensures
            self.text_progress(start, done.push(p), out),
    {
        let site = start.site_of();
        let w0 = start.word_index();
        let s0 = start.symbol_index();
        let st0 = start.storage_of();
        let sc0 = st0.symbol_clock();
        assert(done.push(p).drop_last() =~= done);
        lemma_words_after(w0, st0.word_clock(), site, done);
        lemma_symbols_after(s0, sc0, site, done);
        lemma_items_stable(done, pre.word_index(), pre.symbol_index(), self.word_index(), self.symbol_index());
        if !pre.symbol_index().contains_key(p) {
            let sc = pre.storage_of().symbol_clock();
            assert forall|k: Seq<char>| #[trigger] self.symbol_index().contains_key(k) && !s0.contains_key(k)
                implies symbol_of(self.storage_of().symbol_map()[self.symbol_index()[k]], k) by {
                if k != p {
                    assert(pre.symbol_index().contains_key(k));
                    assert(symbols_after(s0, sc0, site, done).0 == pre.symbol_index());
                    assert(symbols_after(s0, sc0, site, done).1 == sc);
                    assert(!s0.contains_key(k));
                    assert(pre.symbol_index()[k].1 < sc);
                }
            }
            let n0 = start.pending_seq().len() as int;
            let op = self.pending_seq().last();
            assert(self.pending_seq().take(n0) =~= pre.pending_seq().take(n0));
            assert(self.pending_seq().skip(n0) =~= pre.pending_seq().skip(n0).push(op));
            assert(self.pending_seq().skip(n0).drop_last() =~= pre.pending_seq().skip(n0));
        }
    }
}

/// `s` is the symbol the one-character text `text` makes: it leads (stays
/// with what follows) where it opens, an initial quote or an opening
/// bracket; it trails where it closes; it hangs out to the left after an
/// initial quote and to the right after a final quote.
pub open spec fn symbol_of(s: Symbol, text: Seq<char>) -> bool {
    let c = text[0];
    &&& s.text@ == text
    &&& s.leading == (is_initial_quote(c) || is_open_punct(c))
    &&& s.trailing == (is_final_quote(c) || is_close_punct(c))
    &&& s.overflow_left == (if is_initial_quote(c) { 1u8 } else { 0u8 })
    &&& s.overflow_right == (if is_final_quote(c) { 1u8 } else { 0u8 })
}

/// What a piece of text becomes: nothing where it starts with white
/// space (0), a word where it starts with a letter or a number (1), a
/// symbol otherwise (2).
pub open spec fn piece_kind(p: Seq<char>) -> int {
    if is_white_space(p[0]) {
        0
    } else if is_letter_char(p[0]) || is_number_char(p[0]) {
        1
    } else {
        2
    }
}

/// The word index and the word clock after the word pieces of `parts` were
/// created in turn: a word not yet indexed gets the id made of `site` and
/// the clock, and the clock moves on.
pub open spec fn words_after(
    index: Map<Seq<char>, WordId>,
    clock: int,
    site: SiteId,
    parts: Seq<Seq<char>>,
) -> (Map<Seq<char>, WordId>, int)
    decreases parts.len(),
{
    if parts.len() == 0 {
        (index, clock)
    } else {
        let prev = words_after(index, clock, site, parts.drop_last());
        let p = parts.last();
        if piece_kind(p) == 1 && !prev.0.contains_key(p) {
            (prev.0.insert(p, WordId(site, prev.1 as u32)), prev.1 + 1)
        } else {
            prev
        }
    }
}

/// The symbol index and the symbol clock after the symbol pieces of
/// `parts` were created in turn.
pub open spec fn symbols_after(
    index: Map<Seq<char>, SymbolId>,
    clock: int,
    site: SiteId,
    parts: Seq<Seq<char>>,
) -> (Map<Seq<char>, SymbolId>, int)
    decreases parts.len(),
{
    if parts.len() == 0 {
        (index, clock)
    } else {
        let prev = symbols_after(index, clock, site, parts.drop_last());
        let p = parts.last();
        if piece_kind(p) == 2 && !prev.0.contains_key(p) {
            (prev.0.insert(p, SymbolId(site, prev.1 as u32)), prev.1 + 1)
        } else {
            prev
        }
    }
}

/// The items the pieces become, the words and symbols looked up by text.
pub open spec fn items_of(
    parts: Seq<Seq<char>>,
    words: Map<Seq<char>, WordId>,
    symbols: Map<Seq<char>, SymbolId>,
) -> Seq<Item>
    decreases parts.len(),
{
    if parts.len() == 0 {
        Seq::empty()
    } else {
        let before = items_of(parts.drop_last(), words, symbols);
        let p = parts.last();
        if piece_kind(p) == 0 {
            before
        } else if piece_kind(p) == 1 {
            before.push(Item::Word(words[p]))
        } else {
            before.push(Item::Symbol(symbols[p]))
        }
    }
}

/// Creating the words of more pieces keeps what was indexed, indexes every
/// word piece, and hands out ids made of `site` and a time from the clock
/// on, one per new text.
pub proof fn lemma_words_after(index: Map<Seq<char>, WordId>, clock: int, site: SiteId, parts: Seq<Seq<char>>)
    requires
        0 <= clock,
        clock + parts.len() <= u32::MAX,
    ensures
        ({
            let (ix, c) = words_after(index, clock, site, parts);
            &&& clock <= c <= clock + parts.len()
            &&& forall|k: Seq<char>| #[trigger] index.contains_key(k) ==> ix.contains_key(k) && ix[k] == index[k]
            &&& forall|j: int| 0 <= j < parts.len() && piece_kind(parts[j]) == 1 ==> ix.contains_key(#[trigger] parts[j])
            &&& forall|k: Seq<char>| #[trigger] ix.contains_key(k) && !index.contains_key(k) ==> ix[k].0 == site
                && clock <= ix[k].1 < c
        }),
    decreases parts.len(),
{
    if parts.len() > 0 {
        lemma_words_after(index, clock, site, parts.drop_last());
        let prev = words_after(index, clock, site, parts.drop_last());
        assert forall|j: int| 0 <= j < parts.len() && piece_kind(parts[j]) == 1 implies words_after(index, clock, site, parts).0.contains_key(#[trigger] parts[j]) by {
            if j < parts.len() - 1 {
                assert(parts.drop_last()[j] == parts[j]);
            }
        }
    }
}

/// The same for symbols.
pub proof fn lemma_symbols_after(index: Map<Seq<char>, SymbolId>, clock: int, site: SiteId, parts: Seq<Seq<char>>)
    requires
        0 <= clock,
        clock + parts.len() <= u32::MAX,
    ensures
        ({
            let (ix, c) = symbols_after(index, clock, site, parts);
            &&& clock <= c <= clock + parts.len()
            &&& forall|k: Seq<char>| #[trigger] index.contains_key(k) ==> ix.contains_key(k) && ix[k] == index[k]
            &&& forall|j: int| 0 <= j < parts.len() && piece_kind(parts[j]) == 2 ==> ix.contains_key(#[trigger] parts[j])
            &&& forall|k: Seq<char>| #[trigger] ix.contains_key(k) && !index.contains_key(k) ==> ix[k].0 == site
                && clock <= ix[k].1 < c
        }),
    decreases parts.len(),
{
    if parts.len() > 0 {
        lemma_symbols_after(index, clock, site, parts.drop_last());
        assert forall|j: int| 0 <= j < parts.len() && piece_kind(parts[j]) == 2 implies symbols_after(index, clock, site, parts).0.contains_key(#[trigger] parts[j]) by {
            if j < parts.len() - 1 {
                assert(parts.drop_last()[j] == parts[j]);
            }
        }
    }
}

/// The items of the pieces stay the same when the indexes grow, as long as
/// they already held every word and symbol piece.
proof fn lemma_items_stable(
    parts: Seq<Seq<char>>,
    w1: Map<Seq<char>, WordId>,
    s1: Map<Seq<char>, SymbolId>,
    w2: Map<Seq<char>, WordId>,
    s2: Map<Seq<char>, SymbolId>,
)
    requires
        forall|j: int| 0 <= j < parts.len() && piece_kind(parts[j]) == 1 ==> w1.contains_key(#[trigger] parts[j]),
        forall|j: int| 0 <= j < parts.len() && piece_kind(parts[j]) == 2 ==> s1.contains_key(#[trigger] parts[j]),
        forall|k: Seq<char>| #[trigger] w1.contains_key(k) ==> w2.contains_key(k) && w2[k] == w1[k],
        forall|k: Seq<char>| #[trigger] s1.contains_key(k) ==> s2.contains_key(k) && s2[k] == s1[k],
    ensures
        items_of(parts, w1, s1) == items_of(parts, w2, s2),
    decreases parts.len(),
{
    if parts.len() > 0 {
        assert forall|j: int| 0 <= j < parts.drop_last().len() && piece_kind(parts.drop_last()[j]) == 1 implies w1.contains_key(#[trigger] parts.drop_last()[j]) by {
            assert(parts.drop_last()[j] == parts[j]);
        }
        assert forall|j: int| 0 <= j < parts.drop_last().len() && piece_kind(parts.drop_last()[j]) == 2 implies s1.contains_key(#[trigger] parts.drop_last()[j]) by {
            assert(parts.drop_last()[j] == parts[j]);
        }
        lemma_items_stable(parts.drop_last(), w1, s1, w2, s2);
        assert(parts[parts.len() - 1] == parts.last());
    }
}

/// `new` is `old` with words created under fresh ids, each made of `site`
/// and a time in `[from, to)`: each text of `index` that `old_index` lacks
/// stands under its id with that text; all other entries stay.
pub open spec fn words_made(
    new: Map<WordId, Word>,
    old: Map<WordId, Word>,
    index: Map<Seq<char>, WordId>,
    old_index: Map<Seq<char>, WordId>,
    site: SiteId,
    from: int,
    to: int,
) -> bool {
    &&& forall|id: WordId| #[trigger] new.contains_key(id) <==> (old.contains_key(id) || (id.0 == site && from <= id.1 < to))
    &&& forall|id: WordId| #[trigger] old.contains_key(id) && !(id.0 == site && from <= id.1 < to) ==> new[id] == old[id]
    &&& forall|k: Seq<char>| #[trigger] index.contains_key(k) && !old_index.contains_key(k) ==> new[index[k]].text@ == k
}

/// The same for symbols, each made from the character of its text.
pub open spec fn symbols_made(
    new: Map<SymbolId, Symbol>,
    old: Map<SymbolId, Symbol>,
    index: Map<Seq<char>, SymbolId>,
    old_index: Map<Seq<char>, SymbolId>,
    site: SiteId,
    from: int,
    to: int,
) -> bool {
    &&& forall|id: SymbolId| #[trigger] new.contains_key(id) <==> (old.contains_key(id) || (id.0 == site && from <= id.1 < to))
    &&& forall|id: SymbolId| #[trigger] old.contains_key(id) && !(id.0 == site && from <= id.1 < to) ==> new[id] == old[id]
    &&& forall|k: Seq<char>| #[trigger] index.contains_key(k) && !old_index.contains_key(k) ==> symbol_of(new[index[k]], k)
}

/// The operations `ops` are the creations of the new words and symbols of
/// the pieces, in the order of the pieces: for each word piece that the
/// index (as the pieces before it left it) lacks, the word of that text
/// under the next word id; for each such symbol piece, its symbol under the
/// next symbol id; nothing for any other piece.
pub open spec fn ops_made(
    ops: Seq<DocumentOp>,
    words: Map<Seq<char>, WordId>,
    word_clock: int,
    symbols: Map<Seq<char>, SymbolId>,
    symbol_clock: int,
    site: SiteId,
    parts: Seq<Seq<char>>,
) -> bool
    decreases parts.len(),
{
    if parts.len() == 0 {
        ops.len() == 0
    } else {
        let prev = parts.drop_last();
        let p = parts.last();
        let (wi, wc) = words_after(words, word_clock, site, prev);
        let (si, sc) = symbols_after(symbols, symbol_clock, site, prev);
        if piece_kind(p) == 1 && !wi.contains_key(p) {
            &&& ops.len() > 0
            &&& ops_made(ops.drop_last(), words, word_clock, symbols, symbol_clock, site, prev)
            &&& ops.last() matches DocumentOp::CreateWord(i, w) && i == WordId(site, wc as u32) && w.text@ == p
        } else if piece_kind(p) == 2 && !si.contains_key(p) {
            &&& ops.len() > 0
            &&& ops_made(ops.drop_last(), words, word_clock, symbols, symbol_clock, site, prev)
            &&& ops.last() matches DocumentOp::CreateSymbol(i, sy) && i == SymbolId(site, sc as u32) && symbol_of(sy, p)
        } else {
            ops_made(ops, words, word_clock, symbols, symbol_clock, site, prev)
        }
    }
}

/// The first entry, if any.
pub open spec fn first_entry(v: Seq<(Id, Item)>) -> Option<(Id, Item)> {
    if v.len() > 0 { Some(v[0]) } else { None }
}

/// The last entry, if any.
pub open spec fn last_entry(v: Seq<(Id, Item)>) -> Option<(Id, Item)> {
    if v.len() > 0 { Some(v.last()) } else { None }
}

/// The tag an entry of sequence `s` is entered at: the start of the
/// sequence it holds, or the entry itself; `none` where there is no entry.
pub open spec fn entered(s: SequenceId, e: Option<(Id, Item)>, none: Tag) -> Tag {
    match e {
        Some((_, Item::Sequence(child))) => Tag::Start(child),
        Some((id, _)) => Tag::Item(s, id),
        None => none,
    }
}

impl Document {
    /// Every text the indexes know is the text of the word (symbol) they
    /// give for it, which the storage holds.
    #[verifier::opaque]
    pub open spec fn texts_agree(&self) -> bool {
        &&& forall|t: Seq<char>| #[trigger] self.word_index().contains_key(t)
            ==> self.storage_of().word_map().contains_key(self.word_index()[t])
            && self.storage_of().word_map()[self.word_index()[t]].text@ == t
        &&& forall|t: Seq<char>| #[trigger] self.symbol_index().contains_key(t)
            ==> self.storage_of().symbol_map().contains_key(self.symbol_index()[t])
            && self.storage_of().symbol_map()[self.symbol_index()[t]].text@ == t
    }

    /// No word or symbol of this site holds a time its clock has not handed
    /// out yet, so the next one created here gets an id no entry has.
    /// (Executing an operation of another site under this site's id, or
    /// starting from a storage that holds such entries, can break this.)
    #[verifier::opaque]
    pub open spec fn own_keys_fresh(&self) -> bool {
        &&& forall|k: WordId| #[trigger] self.storage_of().word_map().contains_key(k) && k.0 == self.site_of()
            ==> k.1 < self.storage_of().word_clock()
        &&& forall|k: SymbolId| #[trigger] self.storage_of().symbol_map().contains_key(k) && k.0 == self.site_of()
            ==> k.1 < self.storage_of().symbol_clock()
    }

    /// Both hold: what the indexes give agrees with the storage, and this
    /// site's next ids are free.
    pub open spec fn indexes_sound(&self) -> bool {
        self.texts_agree() && self.own_keys_fresh()
    }

    /// `self` is `old` after `create_word` of `text` gave `id`: the word
    /// there is, or a new one under the next id of this site.  Where the
    /// indexes of `old` were sound they stay so, and the word under `id`
    /// has the text.
    pub open spec fn word_created(&self, old: &Document, text: Seq<char>, id: WordId) -> bool {
        &&& self.wf()
        &&& self.same_frame(old)
        &&& self.symbol_index() == old.symbol_index()
        &&& old.indexes_sound() ==> self.indexes_sound()
            && self.storage_of().word_map().contains_key(id) && self.storage_of().word_map()[id].text@ == text
        &&& old.word_index().contains_key(text) ==> {
            &&& id == old.word_index()[text]
            &&& self.storage_of() == old.storage_of()
            &&& self.word_index() == old.word_index()
            &&& self.pending_seq() == old.pending_seq()
        }
        &&& !old.word_index().contains_key(text) ==> {
            &&& id == WordId(old.site_of(), old.storage_of().word_clock() as u32)
            &&& self.storage_of().same_but(&old.storage_of(), 1)
            &&& self.storage_of().word_clock() == old.storage_of().word_clock() + 1
            &&& map_put(self.storage_of().word_map(), old.storage_of().word_map(), id)
            &&& self.storage_of().word_map()[id].text@ == text
            &&& self.word_index() == old.word_index().insert(text, id)
            &&& pushed(
                self.pending_seq(),
                old.pending_seq(),
                |op: DocumentOp| op matches DocumentOp::CreateWord(i, w) && i == id && w.text@ == text,
            )
        }
    }

    /// `self` is `old` after `create_symbol` of `text` gave `id`: the
    /// symbol there is, or a new one under the next id of this site.
    pub open spec fn symbol_created(&self, old: &Document, text: Seq<char>, id: SymbolId) -> bool {
        &&& self.wf()
        &&& self.same_frame(old)
        &&& self.word_index() == old.word_index()
        &&& old.indexes_sound() ==> self.indexes_sound()
            && self.storage_of().symbol_map().contains_key(id) && self.storage_of().symbol_map()[id].text@ == text
        &&& old.symbol_index().contains_key(text) ==> {
            &&& id == old.symbol_index()[text]
            &&& self.storage_of() == old.storage_of()
            &&& self.symbol_index() == old.symbol_index()
            &&& self.pending_seq() == old.pending_seq()
        }
        &&& !old.symbol_index().contains_key(text) ==> {
            &&& id == SymbolId(old.site_of(), old.storage_of().symbol_clock() as u32)
            &&& self.storage_of().same_but(&old.storage_of(), 2)
            &&& self.storage_of().symbol_clock() == old.storage_of().symbol_clock() + 1
            &&& map_put(self.storage_of().symbol_map(), old.storage_of().symbol_map(), id)
            &&& symbol_of(self.storage_of().symbol_map()[id], text)
            &&& self.symbol_index() == old.symbol_index().insert(text, id)
            &&& pushed(
                self.pending_seq(),
                old.pending_seq(),
                |op: DocumentOp| op matches DocumentOp::CreateSymbol(i, s) && i == id && symbol_of(s, text),
            )
        }
    }

    /// `self` is `old` after `crate_seq` of `typ` gave `id`: a new, empty
    /// sequence under the next id of this site.
    pub open spec fn seq_created(&self, old: &Document, typ: TypeId, id: SequenceId) -> bool {
        &&& self.wf()
        &&& self.same_frame(old)
        &&& self.word_index() == old.word_index()
        &&& self.symbol_index() == old.symbol_index()
        &&& id == SequenceId(old.site_of(), old.storage_of().weave_clock() as u32)
        &&& self.storage_of().same_but(&old.storage_of(), 0)
        &&& self.storage_of().weave_clock() == old.storage_of().weave_clock() + 1
        &&& map_put(self.storage_of().weave_map(), old.storage_of().weave_map(), id)
        &&& self.weave_of(id).type_of() == typ
        &&& self.weave_of(id).atom_seq() == Seq::<Atom>::empty()
        &&& self.pending_seq() == old.pending_seq().push(DocumentOp::CreateSequence(id, typ))
    }

    /// `self` is `old` after `creat_seq_with_items` of `items` gave `id`: a
    /// new sequence under the next id of this site, whose weave adds the
    /// items one after the other (and renders them, where the site is not
    /// the zero site).
    pub open spec fn seq_with_items_created(&self, old: &Document, typ: TypeId, items: Seq<Item>, id: SequenceId) -> bool {
        &&& self.wf()
        &&& self.same_frame(old)
        &&& self.word_index() == old.word_index()
        &&& self.symbol_index() == old.symbol_index()
        &&& id == SequenceId(old.site_of(), old.storage_of().weave_clock() as u32)
        &&& self.storage_of().same_but(&old.storage_of(), 0)
        &&& self.storage_of().weave_clock() == old.storage_of().weave_clock() + 1
        &&& map_put(self.storage_of().weave_map(), old.storage_of().weave_map(), id)
        &&& self.weave_of(id).type_of() == typ
        &&& self.weave_of(id).atom_seq() == crate::weave::built(old.site_of(), items, items.len() as int)
        &&& self.weave_of(id).now() == items.len()
        &&& old.site_of().0 != 0 ==> self.weave_of(id).item_seq().map_values(|e: (Id, Item)| e.1) == items
        &&& self.pending_seq() == old.pending_seq().push(DocumentOp::CreateSequence(id, typ))
    }

    /// `self` is `old` after `create_object` of `object` gave `id`: the
    /// object under the next id of this site.
    pub open spec fn object_created(&self, old: &Document, object: Object, id: ObjectId) -> bool {
        &&& self.wf()
        &&& self.same_frame(old)
        &&& self.word_index() == old.word_index()
        &&& self.symbol_index() == old.symbol_index()
        &&& id == ObjectId(old.site_of(), old.storage_of().object_clock() as u32)
        &&& self.storage_of().same_but(&old.storage_of(), 3)
        &&& self.storage_of().object_clock() == old.storage_of().object_clock() + 1
        &&& self.storage_of().object_map() == old.storage_of().object_map().insert(id, object)
        &&& pushed(
            self.pending_seq(),
            old.pending_seq(),
            |op: DocumentOp| op matches DocumentOp::CreateObject(i, o) && i == id && o.data@ == object.data@,
        )
    }

    /// The id after which an item goes: that of an item tag, the null id
    /// for the start of a sequence.
    pub open spec fn prev_of(tag: Tag) -> Id {
        match tag {
            Tag::Item(_, p) => p,
            _ => Id::null_spec(),
        }
    }

    /// `self` is `old` after `insert` of `new_item` at `tag` gave `r`: the
    /// atom that adds the item after the tag was created here and added;
    /// the new item is rendered unless its id was taken already.
    pub open spec fn inserted(&self, old: &Document, tag: Tag, new_item: Item, r: Tag) -> bool {
        let seq = tag.seq_of();
        let a = old.next_atom(seq, Document::prev_of(tag), AtomOp::Add(new_item));
        &&& self.wf()
        &&& r == Tag::Item(seq, a.id)
        &&& self.atom_added(old, seq, a)
        &&& self.pending_seq() == old.pending_seq().push(DocumentOp::SeqOp(seq, a))
        &&& self.site_of() == old.site_of()
        &&& self.root_of() == old.root_of()
        &&& self.parent_map() == linked(old.parent_map(), self.storage_of().item_at(r), r)
        &&& self.word_index() == old.word_index()
        &&& self.symbol_index() == old.symbol_index()
        &&& (!has_id(old.weave_of(seq).atom_seq(), a.id) && a.id != Id::null_spec()) ==> weave_items(
            self.weave_of(seq).atom_seq(),
        ).contains((a.id, new_item))
    }

    /// `self` is `old` after `replace` of the item at `tag` by `new_item`
    /// gave `r`: the replacing atom was created here and added, and the
    /// place of a sequence follows what the tag points at.
    pub open spec fn replaced(&self, old: &Document, tag: Tag, new_item: Item, r: Tag) -> bool {
        let seq = tag.seq_of();
        let a = old.next_atom(seq, Document::prev_of(tag), AtomOp::Replace(new_item));
        &&& self.wf()
        &&& r == Tag::Item(seq, a.id)
        &&& self.atom_added(old, seq, a)
        &&& self.pending_seq() == old.pending_seq().push(DocumentOp::SeqOp(seq, a))
        &&& self.site_of() == old.site_of()
        &&& self.root_of() == old.root_of()
        &&& self.parent_map() == linked(
            unlinked(old.parent_map(), old.storage_of().item_at(tag)),
            self.storage_of().item_at(tag),
            tag,
        )
        &&& self.word_index() == old.word_index()
        &&& self.symbol_index() == old.symbol_index()
    }

    /// `self` is `old` after `remove` of the item at `tag`: the removing
    /// atom was created here and added, and a sequence the item was loses
    /// its place.
    pub open spec fn removed(&self, old: &Document, tag: Tag) -> bool {
        let seq = tag.seq_of();
        let a = old.next_atom(seq, Document::prev_of(tag), AtomOp::Remove);
        &&& self.wf()
        &&& self.atom_added(old, seq, a)
        &&& self.pending_seq() == old.pending_seq().push(DocumentOp::SeqOp(seq, a))
        &&& self.site_of() == old.site_of()
        &&& self.root_of() == old.root_of()
        &&& self.parent_map() == unlinked(old.parent_map(), old.storage_of().item_at(tag))
        &&& self.word_index() == old.word_index()
        &&& self.symbol_index() == old.symbol_index()
    }
}

/// Creating a word twice with the same text gives the same id, and the
/// second time nothing changes.
pub proof fn lemma_create_word_twice(d0: Document, d1: Document, d2: Document, text: Seq<char>, id1: WordId, id2: WordId)
    requires
        d1.word_created(&d0, text, id1),
        d2.word_created(&d1, text, id2),
    ensures
        id1 == id2,
        d2.storage_of() == d1.storage_of(),
        d2.word_index() == d1.word_index(),
        d2.pending_seq() == d1.pending_seq(),
{
    assert(d1.word_index().contains_key(text));
}

/// Creating a symbol twice with the same text gives the same id, and the
/// second time nothing changes.
pub proof fn lemma_create_symbol_twice(d0: Document, d1: Document, d2: Document, text: Seq<char>, id1: SymbolId, id2: SymbolId)
    requires
        d1.symbol_created(&d0, text, id1),
        d2.symbol_created(&d1, text, id2),
    ensures
        id1 == id2,
        d2.storage_of() == d1.storage_of(),
        d2.symbol_index() == d1.symbol_index(),
        d2.pending_seq() == d1.pending_seq(),
{
    assert(d1.symbol_index().contains_key(text));
}

/// A word another site created, once its operation is executed here, is
/// what creating a word of that text gives.
pub proof fn lemma_remote_word_is_found(d0: Document, d1: Document, d2: Document, id: WordId, word: Word, id2: WordId)
    requires
        d1.word_index() == d0.word_index().insert(word.text@, id),
        d2.word_created(&d1, word.text@, id2),
    ensures
        id2 == id,
{
    assert(d1.word_index().contains_key(word.text@));
}

/// Within a sequence whose atoms have distinct ids and which holds no
/// nested sequence, one step forward and one step back return to where
/// they started: from the start, or from any of its entries.  There is no
/// step back from the start, and none forward from the end.
pub proof fn lemma_next_then_previous(d: Document, t: Tag)
    requires
        crate::weave::ids_distinct(d.weave_of(t.seq_of()).atom_seq()),
        forall|k: int| 0 <= k < d.weave_of(t.seq_of()).item_seq().len()
            ==> !((#[trigger] d.weave_of(t.seq_of()).item_seq()[k]).1 is Sequence),
        t is Start || (t matches Tag::Item(_, x) && exists|k: int| 0 <= k < d.weave_of(t.seq_of()).item_seq().len()
            && (#[trigger] d.weave_of(t.seq_of()).item_seq()[k]).0 == x),
    ensures
        d.next_tag_within(t) matches Some(u) && d.previous_tag_within(u) == Some(t),
        d.previous_tag_within(Tag::Start(t.seq_of())) is None,
        d.next_tag_within(Tag::End(t.seq_of())) is None,
{
    let s = t.seq_of();
    let atoms = d.weave_of(s).atom_seq();
    let v = d.weave_of(s).item_seq();
    crate::weave::lemma_rendered_entries(atoms);
    assert(v == weave_items(atoms));
    match t {
        Tag::Start(_) => {
            if v.len() > 0 {
                let x = v[0].0;
                assert(item_of(atoms, x) == Some(v[0].1));
                crate::weave::lemma_pos_from_bounds(v, x, 1);
                assert(pos_from(v, x, 1) == -1) by {
                    if pos_from(v, x, 1) != -1 {
                        assert(v[pos_from(v, x, 1)].0 == v[0].0);
                    }
                }
            }
        },
        Tag::Item(_, x) => {
            let k = choose|k: int| 0 <= k < v.len() && (#[trigger] v[k]).0 == x;
            crate::weave::lemma_pos_exact(v, x, 0, k);
            assert(item_of(atoms, x) == Some(v[k].1));
            if k + 1 < v.len() {
                let y = v[k + 1].0;
                assert(item_of(atoms, y) == Some(v[k + 1].1));
                crate::weave::lemma_next_previous_inverse(v, x);
            }
        },
        Tag::End(_) => {},
    }
}

/// What an insert puts is what the tag it gives back holds, where the id
/// the new atom got was not taken yet in that sequence.
pub proof fn lemma_insert_then_get(d0: Document, d1: Document, tag: Tag, item: Item, r: Tag)
    requires
        d0.storage_of().weave_map().contains_key(tag.seq_of()),
        d1.inserted(&d0, tag, item, r),
        !has_id(d0.weave_of(tag.seq_of()).atom_seq(), d0.next_atom(tag.seq_of(), Document::prev_of(tag),
            AtomOp::Add(item)).id),
    ensures
        d1.storage_of().item_at(r) == Some(item),
{
    let seq = tag.seq_of();
    let a = d0.next_atom(seq, Document::prev_of(tag), AtomOp::Add(item));
    let s0 = d0.weave_of(seq).atom_seq();
    crate::weave::lemma_inserted_item_of(s0, add_slot(s0, a), a);
}

/// What a replacement puts is what the tag it gives back holds, where the
/// id the new atom got was not taken yet in that sequence.
pub proof fn lemma_replace_then_get(d0: Document, d1: Document, tag: Tag, item: Item, r: Tag)
    requires
        d0.storage_of().weave_map().contains_key(tag.seq_of()),
        d1.replaced(&d0, tag, item, r),
        !has_id(d0.weave_of(tag.seq_of()).atom_seq(), d0.next_atom(tag.seq_of(), Document::prev_of(tag),
            AtomOp::Replace(item)).id),
    ensures
        d1.storage_of().item_at(r) == Some(item),
{
    let seq = tag.seq_of();
    let a = d0.next_atom(seq, Document::prev_of(tag), AtomOp::Replace(item));
    let s0 = d0.weave_of(seq).atom_seq();
    crate::weave::lemma_inserted_item_of(s0, add_slot(s0, a), a);
}

/// The two symbols are alike as values: the same text and the same
/// behaviour at line ends.
pub open spec fn same_symbol(a: Symbol, b: Symbol) -> bool {
    &&& a.text@ == b.text@
    &&& a.leading == b.leading
    &&& a.trailing == b.trailing
    &&& a.overflow_left == b.overflow_left
    &&& a.overflow_right == b.overflow_right
}

impl Document {
    /// `self` is `old` after one edit: either nothing was queued and the
    /// storage is the same, or one operation was queued and the storage
    /// holds its content.
    pub open spec fn replay_step(&self, old: &Document) -> bool {
        ||| self.pending_seq() == old.pending_seq() && self.storage_of() == old.storage_of()
        ||| self.pending_seq() == old.pending_seq().push(self.pending_seq().last())
            && self.storage_of().holds_op(&old.storage_of(), self.pending_seq().last())
    }
}

/// Applying an operation to a storage that agrees with another, into
/// which the operation's content went, gives a storage that agrees with
/// the result; the atom of a sequence operation can be added there.
pub proof fn lemma_apply_agrees(r0: Storage, r1: Storage, s0: Storage, s1: Storage, op: DocumentOp)
    requires
        r0.agrees_with(&s0),
        s1.holds_op(&s0, op),
        r1.applied(&r0, op),
    ensures
        r1.agrees_with(&s1),
        op matches DocumentOp::SeqOp(id, atom) ==> r0.weave_map().contains_key(id)
            && can_add(r0.weave_map()[id].atom_seq(), atom),
{
    match op {
        DocumentOp::SeqOp(id, atom) => {
            assert(r0.weave_map().contains_key(id));
            assert forall|s: SequenceId| #[trigger] r1.weave_map().contains_key(s) implies
                r1.weave_map()[s].atom_seq() == s1.weave_map()[s].atom_seq()
                && r1.weave_map()[s].type_of() == s1.weave_map()[s].type_of() by {
                assert(r0.weave_map().contains_key(s));
            }
        },
        DocumentOp::CreateSequence(id, typ) => {
            assert forall|s: SequenceId| #[trigger] r1.weave_map().contains_key(s) implies
                r1.weave_map()[s].atom_seq() == s1.weave_map()[s].atom_seq()
                && r1.weave_map()[s].type_of() == s1.weave_map()[s].type_of() by {
                if s != id {
                    assert(r0.weave_map().contains_key(s));
                }
            }
        },
        DocumentOp::CreateWord(id, word) => {
            assert forall|k: WordId| #[trigger] r1.word_map().contains_key(k) implies
                r1.word_map()[k].text@ == s1.word_map()[k].text@ by {
                if k != id {
                    assert(r0.word_map().contains_key(k));
                }
            }
        },
        DocumentOp::CreateSymbol(id, symbol) => {
            assert forall|k: SymbolId| #[trigger] r1.symbol_map().contains_key(k) implies
                same_symbol(r1.symbol_map()[k], s1.symbol_map()[k]) by {
                if k != id {
                    assert(r0.symbol_map().contains_key(k));
                }
            }
        },
        DocumentOp::CreateObject(id, object) => {
            assert forall|k: ObjectId| #[trigger] r1.object_map().contains_key(k) implies
                r1.object_map()[k].data@ == s1.object_map()[k].data@ by {
                if k != id {
                    assert(r0.object_map().contains_key(k));
                }
            }
        },
        DocumentOp::CreateType(id, name, typ) => {},
        DocumentOp::CreateFont(id, font) => {
            assert forall|k: FontId| #[trigger] r1.font_map().contains_key(k) implies
                r1.font_map()[k].data@ == s1.font_map()[k].data@ by {
                if k != id {
                    assert(r0.font_map().contains_key(k));
                }
            }
        },
        DocumentOp::CreateDictionary(id, dict) => {
            assert forall|k: DictId| #[trigger] r1.dict_map().contains_key(k) implies
                r1.dict_map()[k].data@ == s1.dict_map()[k].data@ by {
                if k != id {
                    assert(r0.dict_map().contains_key(k));
                }
            }
        },
    }
}

/// Replaying a document's edits elsewhere: let `ds` be the document after
/// each of a run of edits, and `rs` a storage that agrees with the first
/// document's storage, followed by that storage after each queued
/// operation was applied to it in turn (unchanged after an edit that
/// queued nothing).  Then the last storage agrees with the last
/// document's storage: the same words, symbols, types and items.
pub proof fn lemma_replay(ds: Seq<Document>, rs: Seq<Storage>)
    requires
        ds.len() > 0,
        rs.len() == ds.len(),
        rs[0].agrees_with(&ds[0].storage_of()),
        forall|i: int| 0 <= i < ds.len() - 1 ==> #[trigger] ds[i + 1].replay_step(&ds[i]),
        forall|i: int| 0 <= i < ds.len() - 1 && ds[i + 1].pending_seq() == ds[i].pending_seq()
            ==> #[trigger] rs[i + 1] == rs[i],
        forall|i: int| 0 <= i < ds.len() - 1 && ds[i + 1].pending_seq() != ds[i].pending_seq()
            ==> #[trigger] rs[i + 1].applied(&rs[i], ds[i + 1].pending_seq().last()),
    ensures
        rs.last().agrees_with(&ds.last().storage_of()),
    decreases ds.len(),
{
    if ds.len() > 1 {
        let i = ds.len() - 2;
        lemma_replay(ds.drop_last(), rs.drop_last());
        assert(ds.drop_last().last() == ds[i]);
        assert(rs.drop_last().last() == rs[i]);
        assert(ds[i + 1].replay_step(&ds[i]));
        if ds[i + 1].pending_seq() == ds[i].pending_seq() {
            assert(rs[i + 1] == rs[i]);
        } else {
            assert(rs[i + 1].applied(&rs[i], ds[i + 1].pending_seq().last()));
            lemma_apply_agrees(rs[i], rs[i + 1], ds[i].storage_of(), ds[i + 1].storage_of(), ds[i + 1].pending_seq().last());
        }
    }
}

/// Replacing a rendered item in a sequence whose atoms have distinct ids,
/// where the new atom gets an id not taken yet, puts the new item in the
/// old one's place: the sequence renders the same entries but that one,
/// which now holds the new item under the tag given back.  (Neither id
/// may be the null id, which also stands for the start of a sequence.)
pub proof fn lemma_replace_in_place(d0: Document, d1: Document, tag: Tag, item: Item, r: Tag)
    requires
        d0.wf(),
        d0.storage_of().weave_map().contains_key(tag.seq_of()),
        d1.replaced(&d0, tag, item, r),
        ({
            let s = d0.weave_of(tag.seq_of()).atom_seq();
            let a = d0.next_atom(tag.seq_of(), Document::prev_of(tag), AtomOp::Replace(item));
            &&& crate::weave::ids_distinct(s)
            &&& exists|x: int| 0 <= x < weave_items(s).len() && (#[trigger] weave_items(s)[x]).0 == a.prev
            &&& !has_id(s, a.id)
            &&& a.id != Id::null_spec()
            &&& a.prev != Id::null_spec()
        }),
    ensures
        ({
            let v = d0.weave_of(tag.seq_of()).item_seq();
            let n = pos_from(v, Document::prev_of(tag), 0);
            &&& 0 <= n < v.len()
            &&& d1.weave_of(tag.seq_of()).item_seq() == v.update(n, (r->1, item))
        }),
{
    let seq = tag.seq_of();
    let a = d0.next_atom(seq, Document::prev_of(tag), AtomOp::Replace(item));
    let s = d0.weave_of(seq).atom_seq();
    d0.lemma_storage_wf();
    assert(closed(s));
    crate::weave::lemma_replace_rendered(s, a, item);
}

/// Inserting after a rendered item that no atom refers to yet, in a
/// sequence whose atoms have distinct ids, where the new atom gets an id
/// not taken yet, renders the new item right after that item; the other
/// entries stay.  (Neither id may be the null id, which also stands for the
/// start of a sequence.)
pub proof fn lemma_insert_after_fresh(d0: Document, d1: Document, tag: Tag, item: Item, r: Tag)
    requires
        d0.wf(),
        d0.storage_of().weave_map().contains_key(tag.seq_of()),
        d1.inserted(&d0, tag, item, r),
        ({
            let s = d0.weave_of(tag.seq_of()).atom_seq();
            let a = d0.next_atom(tag.seq_of(), Document::prev_of(tag), AtomOp::Add(item));
            &&& crate::weave::ids_distinct(s)
            &&& exists|x: int| 0 <= x < weave_items(s).len() && (#[trigger] weave_items(s)[x]).0 == a.prev
            &&& forall|i: int| 0 <= i < s.len() ==> (#[trigger] s[i]).prev != a.prev
            &&& !has_id(s, a.id)
            &&& a.id != Id::null_spec()
            &&& a.prev != Id::null_spec()
        }),
    ensures
        ({
            let v = d0.weave_of(tag.seq_of()).item_seq();
            let n = pos_from(v, Document::prev_of(tag), 0);
            &&& 0 <= n < v.len()
            &&& d1.weave_of(tag.seq_of()).item_seq() == v.insert(n + 1, (r->1, item))
        }),
{
    let seq = tag.seq_of();
    let a = d0.next_atom(seq, Document::prev_of(tag), AtomOp::Add(item));
    let s = d0.weave_of(seq).atom_seq();
    d0.lemma_weave_closed(seq);
    crate::weave::lemma_add_after_fresh(s, a, item);
}

/// A new symbol hangs into the right margin by one exactly when its
/// character is a final quote, and into the left margin by one exactly
/// when it is an initial quote; it takes no space after it when it is an
/// initial quote or opens a bracket, and none before it when it is a final
/// quote or closes a bracket.  So a closing bracket that is no quote, such
/// as `)`, hangs into neither margin.
pub proof fn lemma_new_symbol_behaviour(d0: Document, d1: Document, text: Seq<char>, id: SymbolId)
    requires
        d1.symbol_created(&d0, text, id),
        !d0.symbol_index().contains_key(text),
        text.len() > 0,
    ensures
        d1.storage_of().symbol_map().contains_key(id),
        ({
            let sym = d1.storage_of().symbol_map()[id];
            let c = text[0];
            &&& sym.text@ == text
            &&& (sym.overflow_right == 1u8 <==> is_final_quote(c))
            &&& (sym.overflow_right == 0u8 <==> !is_final_quote(c))
            &&& (sym.overflow_left == 1u8 <==> is_initial_quote(c))
            &&& (sym.overflow_left == 0u8 <==> !is_initial_quote(c))
            &&& (sym.leading <==> is_initial_quote(c) || is_open_punct(c))
            &&& (sym.trailing <==> is_final_quote(c) || is_close_punct(c))
            &&& (is_close_punct(c) && !is_final_quote(c) ==> sym.overflow_right == 0u8 && sym.trailing)
        }),
{
}

/// Walking forward enters a nested sequence at its start: where the entry
/// after the tag (the first one after a start tag; after leaving a
/// sequence at its end, the one after the item that holds it) holds a
/// sequence, the next tag is that sequence's start, never the item tag of
/// the entry that holds it.
pub proof fn lemma_next_enters_sequences(d: Document, tag: Tag, c: SequenceId)
    ensures
        ({
            let s = tag.seq_of();
            let v = d.weave_of(s).item_seq();
            &&& tag is Start ==> (first_entry(v) matches Some(e) ==> (e.1 == Item::Sequence(c)
                ==> d.next_tag(tag) == Some(Tag::Start(c))))
            &&& tag matches Tag::Item(_, id) ==> (next_of(v, id) matches Some(e) ==> (e.1 == Item::Sequence(c)
                ==> d.next_tag(tag) == Some(Tag::Start(c))))
            &&& tag is End ==> (d.parent_map().contains_key(s) ==> (d.parent_map()[s] matches Tag::Item(ps, pid)
                ==> (next_of(d.weave_of(ps).item_seq(), pid) matches Some(e) ==> (e.1 == Item::Sequence(c)
                ==> d.next_tag(tag) == Some(Tag::Start(c))))))
        }),
{
}

/// Stepping forward from an entry into the nested sequence the next entry
/// holds, and straight back, returns to the entry (in a sequence whose
/// atoms have distinct ids, the holding entry being where the nested
/// sequence is linked).
pub proof fn lemma_enter_then_back(d: Document, s: SequenceId, id: Id, x: Id, c: SequenceId)
    requires
        crate::weave::ids_distinct(d.weave_of(s).atom_seq()),
        next_of(d.weave_of(s).item_seq(), id) == Some((x, Item::Sequence(c))),
        d.parent_map().contains_key(c),
        d.parent_map()[c] == Tag::Item(s, x),
    ensures
        d.next_tag(Tag::Item(s, id)) == Some(Tag::Start(c)),
        d.previous_tag(Tag::Start(c)) == Some(Tag::Item(s, id)),
{
    let v = d.weave_of(s).item_seq();
    crate::weave::lemma_rendered_entries(d.weave_of(s).atom_seq());
    assert(v == weave_items(d.weave_of(s).atom_seq()));
    crate::weave::lemma_next_previous_inverse(v, id);
}

/// Whether the operation adds or replaces with a nested sequence.
pub open spec fn holds_sequence(op: AtomOp) -> bool {
    match op {
        AtomOp::Add(Item::Sequence(_)) => true,
        AtomOp::Replace(Item::Sequence(_)) => true,
        _ => false,
    }
}

} // verus!
