//! Bringing a Markdown text into a document: each element becomes a
//! sequence of its own type, its text the words and symbols of the text.
use vstd::prelude::*;
use pulldown_cmark::{Parser, Event, CodeBlockKind};
use pulldown_cmark::Tag as MarkdownTag;
use crate::keys::{TypeId, SequenceId, ObjectId};
use crate::content::{Item, Object, Type};
use crate::document::{Document, items_of, words_after, symbols_after};
use crate::chars::word_segments;

verus! {

/// The tag an element starts with, as far as the importer reads it.
#[derive(Debug, Clone)]
pub enum MdTag {
    Paragraph,
    Heading(u32),
    BlockQuote,
    /// A code block: the language of a fenced one, `None` for an indented one.
    CodeBlock(Option<String>),
    /// A list: the number of its first item where it is ordered.
    List(Option<u64>),
    Item,
    Emphasis,
    /// Any other tag (strong text, links, images, tables, footnotes).
    Other,
}

/// An event of the Markdown parser, as far as the importer reads it.
#[derive(Debug, Clone)]
pub enum MdEvent {
    Start(MdTag),
    End,
    Text(String),
    /// Inline code.
    Code(String),
    /// Any other event (breaks, rules, HTML, footnote references).
    Other,
}

/// A tag with its texts as character sequences.
pub enum TagView {
    Paragraph,
    Heading(u32),
    BlockQuote,
    CodeBlock(Option<Seq<char>>),
    List(Option<u64>),
    Item,
    Emphasis,
    Other,
}

/// An event with its texts as character sequences.
pub enum EventView {
    Start(TagView),
    End,
    Text(Seq<char>),
    Code(Seq<char>),
    Other,
}

impl View for MdTag {
    type V = TagView;

    open spec fn view(&self) -> TagView {
        match self {
            MdTag::Paragraph => TagView::Paragraph,
            MdTag::Heading(l) => TagView::Heading(*l),
            MdTag::BlockQuote => TagView::BlockQuote,
            MdTag::CodeBlock(lang) => TagView::CodeBlock(
                match lang {
                    Some(s) => Some(s@),
                    None => None,
                },
            ),
            MdTag::List(n) => TagView::List(*n),
            MdTag::Item => TagView::Item,
            MdTag::Emphasis => TagView::Emphasis,
            MdTag::Other => TagView::Other,
        }
    }
}

impl View for MdEvent {
    type V = EventView;

    open spec fn view(&self) -> EventView {
        match self {
            MdEvent::Start(t) => EventView::Start(t@),
            MdEvent::End => EventView::End,
            MdEvent::Text(s) => EventView::Text(s@),
            MdEvent::Code(s) => EventView::Code(s@),
            MdEvent::Other => EventView::Other,
        }
    }
}

/// The views of a run of events.
pub open spec fn events_view(evs: Seq<MdEvent>) -> Seq<EventView> {
    evs.map_values(|e: MdEvent| e@)
}

/// The events that `pulldown_cmark` parses a text into (CommonMark).
pub uninterp spec fn markdown_parse(text: Seq<char>) -> Seq<EventView>;

/// How many elements are open after the events: starts less ends.
pub open spec fn open_count(evs: Seq<EventView>) -> int
    decreases evs.len(),
{
    if evs.len() == 0 {
        0
    } else {
        open_count(evs.drop_last()) + match evs.last() {
            EventView::Start(_) => 1int,
            EventView::End => -1int,
            _ => 0int,
        }
    }
}

/// Starts and ends are balanced: no prefix ends more elements than it
/// starts, and all of them end more elements than start.
pub open spec fn balanced(evs: Seq<EventView>) -> bool {
    &&& forall|k: int| 0 <= k <= evs.len() ==> open_count(#[trigger] evs.take(k)) >= 0
    &&& open_count(evs) == 0
}

/// `pulldown_cmark::Tag`, which Verus does not see into.
#[verifier::external_type_specification]
#[verifier::external_body]
pub struct ExMarkdownTag<'a>(MarkdownTag<'a>);

/// The tag of a start event read one for one: the tags the importer
/// handles by name, every other one as `Other`.  Nothing is stated of it
/// here: it serves `markdown_events`, whose contract covers what it reads.
#[verifier::external_body]
fn markdown_tag(t: MarkdownTag) -> MdTag {
    match t {
        MarkdownTag::Paragraph => MdTag::Paragraph,
        MarkdownTag::Heading(l) => MdTag::Heading(l),
        MarkdownTag::BlockQuote => MdTag::BlockQuote,
        MarkdownTag::CodeBlock(CodeBlockKind::Fenced(s)) => MdTag::CodeBlock(Some(s.to_string())),
        MarkdownTag::CodeBlock(CodeBlockKind::Indented) => MdTag::CodeBlock(None),
        MarkdownTag::List(n) => MdTag::List(n),
        MarkdownTag::Item => MdTag::Item,
        MarkdownTag::Emphasis => MdTag::Emphasis,
        _ => MdTag::Other,
    }
}

/// `pulldown_cmark::Parser::new` on the text, its events read one for one
/// (the tags by `markdown_tag`): those the importer handles by name, every
/// other one as `Other`.  What the events of a text are is left to the
/// name; the crate's documentation promises that starts and ends are
/// balanced.
#[verifier::external_body]
fn markdown_events(text: &str) -> (r: Vec<MdEvent>)
    ensures
        events_view(r@) == markdown_parse(text@),
        balanced(events_view(r@)),
{
    Parser::new(text).map(|e| match e {
        Event::Start(t) => MdEvent::Start(markdown_tag(t)),
        Event::End(_) => MdEvent::End,
        Event::Text(s) => MdEvent::Text(s.to_string()),
        Event::Code(s) => MdEvent::Code(s.to_string()),
        _ => MdEvent::Other,
    }).collect()
}

/// The names of the types the importer uses: the six heading levels, then
/// the document, paragraph, emphasis, block quote, inline code, code block,
/// list and list item.
pub open spec fn md_type_names() -> Seq<Seq<char>> {
    seq![
        "header_1"@, "header_2"@, "header_3"@, "header_4"@, "header_5"@, "header_6"@,
        "document"@, "paragraph"@, "emphasis"@, "blockquote"@, "inline-code"@, "block-code"@,
        "list"@, "list-item"@,
    ]
}

/// The descriptions `define_types` gives those types, in the same order.
pub open spec fn md_type_descriptions() -> Seq<Seq<char>> {
    seq![
        "Markdown Heading #1"@, "Markdown Heading #2"@, "Markdown Heading #3"@,
        "Markdown Heading #4"@, "Markdown Heading #5"@, "Markdown Heading #6"@,
        "Markdown Document"@, "Markdown Paragraph"@, "Markdown Emphasised text"@,
        "Markdown Quotation in block form"@, "Markdown Inline Code"@, "Markdown Code in block form"@,
        "Markdown Unnumbered list of items"@, "Markdown A list items"@,
    ]
}

/// The names of `md_type_names` are all different.
proof fn lemma_md_names_distinct()
    ensures
        forall|j: int, k: int| 0 <= j < 14 && 0 <= k < 14 && j != k
            ==> #[trigger] md_type_names()[j] != #[trigger] md_type_names()[k],
{
    reveal_strlit("header_1");
    reveal_strlit("header_2");
    reveal_strlit("header_3");
    reveal_strlit("header_4");
    reveal_strlit("header_5");
    reveal_strlit("header_6");
    reveal_strlit("document");
    reveal_strlit("paragraph");
    reveal_strlit("emphasis");
    reveal_strlit("blockquote");
    reveal_strlit("inline-code");
    reveal_strlit("block-code");
    reveal_strlit("list");
    reveal_strlit("list-item");
    let n = md_type_names();
    assert forall|j: int, k: int| 0 <= j < 14 && 0 <= k < 14 && j != k implies #[trigger] n[j] != #[trigger] n[k] by {
        if n[j] == n[k] {
            assert(n[j].len() == n[k].len());
            assert(n[j][0] == n[k][0]);
            if n[j].len() >= 8 {
                assert(n[j][7] == n[k][7]);
            }
            if n[j].len() >= 10 {
                assert(n[j][5] == n[k][5]);
            }
        }
    }
}

impl Document {
    /// Every type the importer uses is registered under its name.
    pub open spec fn has_md_types(&self) -> bool {
        forall|k: int| 0 <= k < 14 ==> self.storage_of().type_name_map().contains_key(#[trigger] md_type_names()[k])
    }

    /// Creates the types the importer uses, each under its name, in the
    /// order of `md_type_names`.
    pub fn define_types(&mut self)
        requires
            old(self).wf(),
            old(self).storage_of().type_clock() + 14 <= u32::MAX,
        ensures
            final(self).wf(),
            final(self).same_frame(&*old(self)),
            final(self).word_index() == old(self).word_index(),
            final(self).symbol_index() == old(self).symbol_index(),
            final(self).storage_of().same_but(&old(self).storage_of(), 4),
            final(self).storage_of().type_clock() == old(self).storage_of().type_clock() + 14,
            forall|k: int| 0 <= k < 14 ==> {
                let id = TypeId(old(self).site_of(), (old(self).storage_of().type_clock() + k) as u32);
                &&& final(self).storage_of().type_name_map()[#[trigger] md_type_names()[k]] == id
                &&& final(self).storage_of().type_map()[id].description@ == md_type_descriptions()[k]
            },
            final(self).has_md_types(),
    {
        let ghost d0 = *self;
        self.create_type("header_1", Type::new("Markdown Heading #1"));
        self.create_type("header_2", Type::new("Markdown Heading #2"));
        self.create_type("header_3", Type::new("Markdown Heading #3"));
        self.create_type("header_4", Type::new("Markdown Heading #4"));
        self.create_type("header_5", Type::new("Markdown Heading #5"));
        self.create_type("header_6", Type::new("Markdown Heading #6"));
        self.create_type("document", Type::new("Markdown Document"));
        self.create_type("paragraph", Type::new("Markdown Paragraph"));
        self.create_type("emphasis", Type::new("Markdown Emphasised text"));
        self.create_type("blockquote", Type::new("Markdown Quotation in block form"));
        self.create_type("inline-code", Type::new("Markdown Inline Code"));
        self.create_type("block-code", Type::new("Markdown Code in block form"));
        self.create_type("list", Type::new("Markdown Unnumbered list of items"));
        self.create_type("list-item", Type::new("Markdown A list items"));
        proof {
            lemma_md_names_distinct();
            let tc = d0.storage_of().type_clock();
            let site = d0.site_of();
            assert forall|k: int| 0 <= k < 14 implies {
                let id = TypeId(site, (tc + k) as u32);
                &&& self.storage_of().type_name_map()[#[trigger] md_type_names()[k]] == id
                &&& self.storage_of().type_map()[id].description@ == md_type_descriptions()[k]
            } by {
                d0.storage_of().lemma_clock_ranges();
            }
        }
    }
}


/// The types the importer gives the elements.
#[derive(Debug, Clone, Copy)]
pub struct MdTypes {
    pub document: TypeId,
    pub paragraph: TypeId,
    pub emphasis: TypeId,
    pub block_quote: TypeId,
    pub inline_code: TypeId,
    pub list: TypeId,
    pub list_item: TypeId,
    pub block_code: TypeId,
    /// The types `header_1` to `header_6`; a heading of level `l` gets the
    /// one at index `l`.
    pub headings: [TypeId; 6],
}

/// Where the importer stands between two events: the elements still open,
/// each with the type and the items of the element around it; the items of
/// the innermost element and its type; and, inside a code block, whether
/// its language is TeX and the bytes of its text so far.
pub struct MdState {
    pub stack: Seq<(TypeId, Seq<Item>)>,
    pub items: Seq<Item>,
    pub current: TypeId,
    pub code: Option<(bool, Seq<u8>)>,
}

/// The state before the first event: nothing open, no items, the document
/// type.
pub open spec fn md_start(ty: MdTypes) -> MdState {
    MdState { stack: Seq::empty(), items: Seq::empty(), current: ty.document, code: None }
}

/// The languages of a code block that make it a TeX formula.
pub open spec fn tex_language(lang: Seq<char>) -> bool {
    lang == "tex"@ || lang == "TeX"@ || lang == "latex"@ || lang == "LaTeX"@
}

/// Whether a code block is a TeX formula: a fenced one in a TeX language.
pub open spec fn block_is_tex(lang: Option<Seq<char>>) -> bool {
    lang matches Some(l) && tex_language(l)
}

/// The tags the importer takes: all but headings of level 6 or more,
/// ordered lists and the tags it does not know.
pub open spec fn tag_supported(t: TagView) -> bool {
    match t {
        TagView::Heading(l) => l < 6,
        TagView::List(n) => n is None,
        TagView::Other => false,
        _ => true,
    }
}

/// The type of an element that starts with the tag.
pub open spec fn tag_type(t: TagView, ty: MdTypes) -> TypeId {
    match t {
        TagView::Paragraph => ty.paragraph,
        TagView::Heading(l) => ty.headings@[l as int],
        TagView::BlockQuote => ty.block_quote,
        TagView::List(_) => ty.list,
        TagView::Item => ty.list_item,
        TagView::Emphasis => ty.emphasis,
        _ => ty.document,
    }
}

/// The text a list item starts with: a middle dot.
pub open spec fn bullet() -> Seq<char> {
    "\u{b7}"@
}

/// The items `create_text` makes of the text in the document.
pub open spec fn text_items(d: Document, t: Seq<char>) -> Seq<Item> {
    let ps = word_segments(t);
    items_of(
        ps,
        words_after(d.word_index(), d.storage_of().word_clock(), d.site_of(), ps).0,
        symbols_after(d.symbol_index(), d.storage_of().symbol_clock(), d.site_of(), ps).0,
    )
}

/// The id the next sequence created in the document gets.
pub open spec fn next_seq(d: Document) -> SequenceId {
    SequenceId(d.site_of(), d.storage_of().weave_clock() as u32)
}

/// The id the next object created in the document gets.
pub open spec fn next_object(d: Document) -> ObjectId {
    ObjectId(d.site_of(), d.storage_of().object_clock() as u32)
}

/// What one event does, from document `d0` and state `s0` to `d1` and `s1`.
/// Inside a code block a text adds its bytes to the code, and the end
/// closes the block: a TeX block becomes an object (its data the bytes of
/// the code) whose item the enclosing element gets; any other is dropped.
/// Outside: a code block starts collecting; another start opens an element
/// (a list item with the items of the bullet); an end makes the items of
/// the element a new sequence of its type, an item of the element around
/// it; a text adds its items; inline code adds a new sequence of the
/// inline code type with the items of its text; other events do nothing.
#[verifier::opaque]
pub open spec fn md_step(d0: Document, s0: MdState, e: EventView, ty: MdTypes, d1: Document, s1: MdState) -> bool {
    match s0.code {
        Some((tex, bytes)) => match e {
            EventView::Text(t) => d1 == d0 && s1 == MdState {
                code: Some((tex, bytes + vstd::utf8::encode_utf8(t))), ..s0 },
            EventView::Code(t) => d1 == d0 && s1 == MdState {
                code: Some((tex, bytes + vstd::utf8::encode_utf8(t))), ..s0 },
            EventView::End => if tex {
                &&& exists|o: Object| o.data@ == bytes && #[trigger] d1.object_created(&d0, o, next_object(d0))
                &&& s1 == MdState { items: s0.items.push(Item::Object(next_object(d0))), code: None, ..s0 }
            } else {
                d1 == d0 && s1 == MdState { code: None, ..s0 }
            },
            _ => false,
        },
        None => match e {
            EventView::Start(TagView::CodeBlock(lang)) => d1 == d0 && s1 == MdState {
                code: Some((block_is_tex(lang), Seq::empty())), ..s0 },
            EventView::Start(TagView::Item) => {
                let r = text_items(d0, bullet());
                &&& d1.items_created(&d0, word_segments(bullet()), r)
                &&& s1 == MdState {
                    stack: s0.stack.push((s0.current, s0.items)), items: r, current: ty.list_item, code: None }
            },
            EventView::Start(t) => d1 == d0 && s1 == MdState {
                stack: s0.stack.push((s0.current, s0.items)), items: Seq::empty(), current: tag_type(t, ty), code: None },
            EventView::End => {
                let id = next_seq(d0);
                &&& d1.seq_with_items_created(&d0, s0.current, s0.items, id)
                &&& s1 == MdState {
                    stack: s0.stack.drop_last(),
                    items: s0.stack.last().1.push(Item::Sequence(id)),
                    current: s0.stack.last().0,
                    code: None,
                }
            },
            EventView::Text(t) => {
                let r = text_items(d0, t);
                &&& d1.items_created(&d0, word_segments(t), r)
                &&& s1 == MdState { items: s0.items + r, ..s0 }
            },
            EventView::Code(t) => {
                let r = text_items(d0, t);
                let id = next_seq(d0);
                &&& exists|dm: Document| #[trigger] dm.items_created(&d0, word_segments(t), r)
                    && d1.seq_with_items_created(&dm, ty.inline_code, r, id)
                &&& s1 == MdState { items: s0.items.push(Item::Sequence(id)), ..s0 }
            },
            EventView::Other => d1 == d0 && s1 == s0,
        },
    }
}

/// A code block of one text, imported outside any other code block: where
/// its language is `tex`, `TeX`, `latex` or `LaTeX`, it becomes one new
/// object, holding the UTF-8 bytes of the text, whose item the enclosing
/// element gets; in any other language, or with none, it is dropped and
/// leaves the document and the importer's state as they were.
pub proof fn lemma_code_block_import(
    d0: Document, s0: MdState, lang: Option<Seq<char>>, t: Seq<char>, ty: MdTypes,
    d1: Document, s1: MdState, d2: Document, s2: MdState, d3: Document, s3: MdState,
)
    requires
        s0.code is None,
        md_step(d0, s0, EventView::Start(TagView::CodeBlock(lang)), ty, d1, s1),
        md_step(d1, s1, EventView::Text(t), ty, d2, s2),
        md_step(d2, s2, EventView::End, ty, d3, s3),
    ensures
        (lang == Some("tex"@) || lang == Some("TeX"@) || lang == Some("latex"@) || lang == Some("LaTeX"@)) ==> {
            &&& exists|o: Object| o.data@ == vstd::utf8::encode_utf8(t) && #[trigger] d3.object_created(&d0, o, next_object(d0))
            &&& s3.items == s0.items.push(Item::Object(next_object(d0)))
            &&& s3.code is None
        },
        !(lang == Some("tex"@) || lang == Some("TeX"@) || lang == Some("latex"@) || lang == Some("LaTeX"@)) ==> {
            &&& d3 == d0
            &&& s3 == s0
        },
{
    reveal(md_step);
    assert(Seq::<u8>::empty() + vstd::utf8::encode_utf8(t) =~= vstd::utf8::encode_utf8(t));
}

/// The importer's run over the events: the documents and states before
/// and after each event, each event a step from one to the next.
pub open spec fn md_run(docs: Seq<Document>, states: Seq<MdState>, evs: Seq<EventView>, ty: MdTypes) -> bool {
    &&& docs.len() == evs.len() + 1
    &&& states.len() == evs.len() + 1
    &&& forall|i: int| 0 <= i < evs.len() ==> md_step(docs[i], states[i], #[trigger] evs[i], ty, docs[i + 1], states[i + 1])
}

/// Where the events leave the importer: how many elements are open
/// outside code blocks, and whether it is inside a code block.
pub open spec fn md_mode(evs: Seq<EventView>) -> (int, bool)
    decreases evs.len(),
{
    if evs.len() == 0 {
        (0, false)
    } else {
        let (d, c) = md_mode(evs.drop_last());
        if c {
            (d, !(evs.last() is End))
        } else {
            match evs.last() {
                EventView::Start(TagView::CodeBlock(_)) => (d, true),
                EventView::Start(_) => (d + 1, false),
                EventView::End => (d - 1, false),
                _ => (d, false),
            }
        }
    }
}

/// Whether the importer takes the event there: inside a code block only
/// text, inline code and its end; outside it, starts of supported tags only.
pub open spec fn event_supported(in_code: bool, e: EventView) -> bool {
    if in_code {
        e is Text || e is Code || e is End
    } else {
        match e {
            EventView::Start(t) => tag_supported(t),
            _ => true,
        }
    }
}

/// Every event is one the importer takes where it stands.
pub open spec fn events_supported(evs: Seq<EventView>) -> bool {
    forall|i: int| 0 <= i < evs.len() ==> event_supported(md_mode(evs.take(i)).1, #[trigger] evs[i])
}

/// Every end outside a code block closes an element that is open.
pub open spec fn ends_close(evs: Seq<EventView>) -> bool {
    forall|i: int| 0 <= i < evs.len() && !md_mode(evs.take(i)).1 && #[trigger] evs[i] is End
        ==> md_mode(evs.take(i)).0 > 0
}

/// The texts the event makes items of (outside a code block) fit the
/// document (see `pieces_fit`): that of a text, of inline code, and the
/// bullet of a list item.
pub open spec fn event_texts_fit(d: Document, in_code: bool, e: EventView) -> bool {
    !in_code ==> match e {
        EventView::Text(t) => d.pieces_fit(word_segments(t)),
        EventView::Code(t) => d.pieces_fit(word_segments(t)),
        EventView::Start(TagView::Item) => d.pieces_fit(word_segments(bullet())),
        _ => true,
    }
}

/// Every text of the events fits the document.
pub open spec fn texts_fit(d: Document, evs: Seq<EventView>) -> bool {
    forall|i: int| 0 <= i < evs.len() ==> event_texts_fit(d, md_mode(evs.take(i)).1, #[trigger] evs[i])
}

/// A bound on how far one event moves the clocks and how many items it
/// adds: two, and the length of its text.
pub open spec fn event_cost(e: EventView) -> int {
    match e {
        EventView::Text(t) => t.len() + 2int,
        EventView::Code(t) => t.len() + 2int,
        _ => 2,
    }
}

/// The bound for a run of events.
pub open spec fn md_cost(evs: Seq<EventView>) -> int
    decreases evs.len(),
{
    if evs.len() == 0 {
        0
    } else {
        md_cost(evs.drop_last()) + event_cost(evs.last())
    }
}

/// The clocks of the document have room for `n` more steps (and one more
/// sequence).
pub open spec fn room_for(d: Document, n: int) -> bool {
    let st = d.storage_of();
    &&& st.word_clock() + n <= u32::MAX
    &&& st.symbol_clock() + n <= u32::MAX
    &&& st.weave_clock() + n < u32::MAX
    &&& st.object_clock() + n <= u32::MAX
}

/// Whether the importer takes the events into the document: every event
/// is supported where it stands, every end closes an open element, every
/// text fits, and the clocks have room.
pub open spec fn md_fits(d: Document, evs: Seq<EventView>) -> bool {
    &&& events_supported(evs)
    &&& ends_close(evs)
    &&& texts_fit(d, evs)
    &&& room_for(d, md_cost(evs))
}

/// `d1` is `d0` moved on by at most `n` on each clock, with every symbol
/// text of `d0` still indexed.
pub open spec fn moved_on(d0: Document, d1: Document, n: int) -> bool {
    &&& d1.storage_of().word_clock() <= d0.storage_of().word_clock() + n
    &&& d1.storage_of().symbol_clock() <= d0.storage_of().symbol_clock() + n
    &&& d1.storage_of().weave_clock() <= d0.storage_of().weave_clock() + n
    &&& d1.storage_of().object_clock() <= d0.storage_of().object_clock() + n
    &&& forall|k: Seq<char>| #[trigger] d0.symbol_index().contains_key(k) ==> d1.symbol_index().contains_key(k)
}

/// The number of items in the open elements.
pub open spec fn stack_total(stack: Seq<(TypeId, Seq<Item>)>) -> int
    decreases stack.len(),
{
    if stack.len() == 0 {
        0
    } else {
        stack_total(stack.drop_last()) + stack.last().1.len()
    }
}

proof fn lemma_stack_total(stack: Seq<(TypeId, Seq<Item>)>)
    ensures
        stack_total(stack) >= 0,
    decreases stack.len(),
{
    if stack.len() > 0 {
        lemma_stack_total(stack.drop_last());
    }
}

/// The number of items the state holds.
pub open spec fn items_total(s: MdState) -> int {
    s.items.len() + stack_total(s.stack)
}

/// The importer's state as it runs.
struct MdBuilder {
    stack: Vec<(TypeId, Vec<Item>)>,
    items: Vec<Item>,
    current: TypeId,
    in_code: bool,
    tex: bool,
    code: Vec<u8>,
}

impl MdBuilder {
    spec fn state(&self) -> MdState {
        MdState {
            stack: self.stack@.map_values(|p: (TypeId, Vec<Item>)| (p.0, p.1@)),
            items: self.items@,
            current: self.current,
            code: if self.in_code { Some((self.tex, self.code@)) } else { None },
        }
    }
}

/// Whether the language makes a code block a TeX formula.
fn is_tex(lang: &Option<String>) -> (r: bool)
    ensures
        r == block_is_tex(
            match lang {
                Some(s) => Some(s@),
                None => None,
            },
        ),
{
    match lang {
        Some(l) => *l == "tex".to_owned() || *l == "TeX".to_owned() || *l == "latex".to_owned()
            || *l == "LaTeX".to_owned(),
        None => false,
    }
}

/// Appends the UTF-8 bytes of the text.
fn push_bytes(code: &mut Vec<u8>, text: &str)
    ensures
        final(code)@ == old(code)@ + vstd::utf8::encode_utf8(text@),
{
    let bytes = text.as_bytes();
    let mut j: usize = 0;
    while j < bytes.len()
        invariant
            0 <= j <= bytes@.len(),
            bytes@ == vstd::utf8::encode_utf8(text@),
            code@ == old(code)@ + bytes@.take(j as int),
        decreases bytes@.len() - j,
    {
        code.push(bytes[j]);
        j = j + 1;
        proof {
            assert(bytes@.take(j as int) =~= bytes@.take(j - 1).push(bytes@[j - 1]));
        }
    }
    proof {
        assert(bytes@.take(bytes@.len() as int) =~= bytes@);
    }
}

impl Document {
    /// Takes one event: the step `md_step` gives.
    fn take_event(&mut self, b: &mut MdBuilder, e: &MdEvent, ty: &MdTypes)
        requires
            old(self).wf(),
            event_supported(old(b).state().code is Some, e@),
            !(old(b).state().code is Some) && e@ is End ==> old(b).state().stack.len() > 0,
            event_texts_fit(*old(self), old(b).state().code is Some, e@),
            room_for(*old(self), event_cost(e@)),
            items_total(old(b).state()) + event_cost(e@) < u32::MAX,
        ensures
            md_step(*old(self), old(b).state(), e@, *ty, *final(self), final(b).state()),
            final(self).wf(),
            moved_on(*old(self), *final(self), event_cost(e@)),
            items_total(final(b).state()) <= items_total(old(b).state()) + event_cost(e@),
    {
        let ghost d0 = *self;
        let ghost s0 = b.state();
        proof {
            reveal(md_step);
            self.lemma_storage_wf();
            self.storage_of().lemma_clock_ranges();
            lemma_stack_total(s0.stack);
        }
        if b.in_code {
            match e {
                MdEvent::Text(t) => {
                    push_bytes(&mut b.code, t.as_str());
                },
                MdEvent::Code(t) => {
                    push_bytes(&mut b.code, t.as_str());
                },
                _ => {
                    b.in_code = false;
                    let mut data: Vec<u8> = Vec::new();
                    std::mem::swap(&mut data, &mut b.code);
                    if b.tex {
                        let object = Object { data };
                        let ghost o = object;
                        let id = self.create_object(object);
                        b.items.push(Item::Object(id));
                        assert(o.data@ == s0.code.unwrap().1 && self.object_created(&d0, o, next_object(d0)));
                    }
                },
            }
            assert(b.state().stack =~= s0.stack);
        } else {
            match e {
                MdEvent::Start(tag) => {
                    match tag {
                        MdTag::CodeBlock(lang) => {
                            b.in_code = true;
                            b.tex = is_tex(lang);
                            b.code = Vec::new();
                            assert(b.state().stack =~= s0.stack);
                        },
                        _ => {
                            let mut inner: Vec<Item> = Vec::new();
                            let key = match tag {
                                MdTag::Paragraph => ty.paragraph,
                                MdTag::Heading(l) => ty.headings[*l as usize],
                                MdTag::BlockQuote => ty.block_quote,
                                MdTag::List(_) => ty.list,
                                MdTag::Emphasis => ty.emphasis,
                                MdTag::Item => {
                                    proof {
                                        reveal_strlit("\u{b7}");
                                    }
                                    inner = self.create_text("\u{b7}");
                                    ty.list_item
                                },
                                _ => ty.document,
                            };
                            std::mem::swap(&mut inner, &mut b.items);
                            b.stack.push((b.current, inner));
                            b.current = key;
                            proof {
                                assert(b.state().stack =~= s0.stack.push((s0.current, s0.items)));
                                assert(b.state().stack.drop_last() =~= s0.stack);
                            }
                        },
                    }
                },
                MdEvent::End => {
                    let ghost old_stack = b.stack@;
                    let popped = b.stack.pop();
                    let (parent, mut outer) = popped.unwrap();
                    std::mem::swap(&mut outer, &mut b.items);
                    let id = self.creat_seq_with_items(b.current, outer);
                    b.items.push(Item::Sequence(id));
                    b.current = parent;
                    proof {
                        assert(b.state().stack =~= s0.stack.drop_last());
                        assert(s0.stack.last() == (parent, old_stack.last().1@));
                    }
                },
                MdEvent::Text(t) => {
                    let mut r = self.create_text(t.as_str());
                    b.items.append(&mut r);
                    assert(b.state().stack =~= s0.stack);
                },
                MdEvent::Code(t) => {
                    let r = self.create_text(t.as_str());
                    let ghost dm = *self;
                    let id = self.creat_seq_with_items(ty.inline_code, r);
                    b.items.push(Item::Sequence(id));
                    assert(dm.items_created(&d0, word_segments(t@), text_items(d0, t@)));
                    assert(b.state().stack =~= s0.stack);
                },
                MdEvent::Other => {
                    assert(b.state().stack =~= s0.stack);
                },
            }
        }
    }
}

/// A step leaves the state where `md_mode` says the events leave it.
proof fn lemma_step_mode(
    d0: Document,
    s0: MdState,
    e: EventView,
    ty: MdTypes,
    d1: Document,
    s1: MdState,
    evs: Seq<EventView>,
)
    requires
        md_step(d0, s0, e, ty, d1, s1),
        evs.len() > 0,
        evs.last() == e,
        (s0.code is Some) == md_mode(evs.drop_last()).1,
        s0.stack.len() == md_mode(evs.drop_last()).0,
        !(s0.code is Some) && e is End ==> s0.stack.len() > 0,
    ensures
        (s1.code is Some) == md_mode(evs).1,
        s1.stack.len() == md_mode(evs).0,
{
    reveal(md_step);
}

/// `d1` is `d0` after the importer took the events and made the result
/// `r`: there is a run over the events from `d0` and the start state,
/// and `d1` is its last document after the items of its last state became
/// the new sequence `r` of the document type.
#[verifier::opaque]
pub open spec fn md_imported(d0: Document, d1: Document, evs: Seq<EventView>, ty: MdTypes, r: SequenceId) -> bool {
    exists|docs: Seq<Document>, states: Seq<MdState>| {
        &&& #[trigger] md_run(docs, states, evs, ty)
        &&& docs[0] == d0
        &&& states[0] == md_start(ty)
        &&& d1.seq_with_items_created(&docs.last(), ty.document, states.last().items, r)
    }
}

proof fn lemma_imported(
    d0: Document,
    d1: Document,
    evs: Seq<EventView>,
    ty: MdTypes,
    r: SequenceId,
    docs: Seq<Document>,
    states: Seq<MdState>,
)
    requires
        md_run(docs, states, evs, ty),
        docs[0] == d0,
        states[0] == md_start(ty),
        d1.seq_with_items_created(&docs.last(), ty.document, states.last().items, r),
    ensures
        md_imported(d0, d1, evs, ty, r),
{
    reveal(md_imported);
}

/// After all the events there is room for the last sequence.
proof fn lemma_final_room(d0: Document, evs: Seq<EventView>, d: Document, s: MdState)
    requires
        md_fits(d0, evs),
        0 <= d0.storage_of().weave_clock(),
        moved_on(d0, d, md_cost(evs)),
        items_total(s) <= md_cost(evs),
    ensures
        d.storage_of().weave_clock() < u32::MAX,
        s.items.len() < u32::MAX,
{
    lemma_stack_total(s.stack);
}

/// A run over a prefix of the events, one step further.
proof fn lemma_run_push(
    docs: Seq<Document>,
    states: Seq<MdState>,
    evs: Seq<EventView>,
    i: int,
    ty: MdTypes,
    d1: Document,
    s1: MdState,
)
    requires
        0 <= i < evs.len(),
        md_run(docs, states, evs.take(i), ty),
        md_step(docs.last(), states.last(), evs[i], ty, d1, s1),
    ensures
        md_run(docs.push(d1), states.push(s1), evs.take(i + 1), ty),
{
    let pre = evs.take(i);
    let post = evs.take(i + 1);
    let docs1 = docs.push(d1);
    let states1 = states.push(s1);
    assert forall|j: int| 0 <= j < post.len() implies md_step(docs1[j], states1[j], #[trigger] post[j], ty, docs1[j + 1], states1[j + 1]) by {
        if j < pre.len() {
            assert(post[j] == pre[j]);
        }
    }
}

/// Where a run over the first `i` events stands (clocks moved on by at
/// most the bound of those events, no more items than that bound, the
/// state where `md_mode` says), the next event meets what `take_event`
/// asks.
proof fn lemma_event_ready(d0: Document, evs: Seq<EventView>, i: int, d: Document, s: MdState)
    requires
        0 <= i < evs.len(),
        md_fits(d0, evs),
        0 <= d0.storage_of().weave_clock(),
        moved_on(d0, d, md_cost(evs.take(i))),
        items_total(s) <= md_cost(evs.take(i)),
        (s.code is Some) == md_mode(evs.take(i)).1,
        s.stack.len() == md_mode(evs.take(i)).0,
    ensures
        event_supported(s.code is Some, evs[i]),
        !(s.code is Some) && evs[i] is End ==> s.stack.len() > 0,
        event_texts_fit(d, s.code is Some, evs[i]),
        room_for(d, event_cost(evs[i])),
        items_total(s) + event_cost(evs[i]) < u32::MAX,
        md_cost(evs.take(i + 1)) == md_cost(evs.take(i)) + event_cost(evs[i]),
{
    let pre = evs.take(i);
    let post = evs.take(i + 1);
    assert(post.drop_last() =~= pre);
    lemma_cost_prefix(evs, i + 1);
    assert(event_supported(md_mode(pre).1, evs[i]));
    assert(event_texts_fit(d0, md_mode(pre).1, evs[i]));
    if !md_mode(pre).1 {
        match evs[i] {
            EventView::Text(t) => lemma_fit_grows(d0, d, word_segments(t)),
            EventView::Code(t) => lemma_fit_grows(d0, d, word_segments(t)),
            EventView::Start(TagView::Item) => lemma_fit_grows(d0, d, word_segments(bullet())),
            _ => {},
        }
    }
}

/// The bound of a prefix of the events is no more than that of all.
proof fn lemma_cost_prefix(evs: Seq<EventView>, k: int)
    requires
        0 <= k <= evs.len(),
    ensures
        0 <= md_cost(evs.take(k)) <= md_cost(evs),
    decreases evs.len(),
{
    if k == evs.len() {
        assert(evs.take(k) =~= evs);
        lemma_cost_nonneg(evs);
    } else {
        lemma_cost_prefix(evs.drop_last(), k);
        assert(evs.drop_last().take(k) =~= evs.take(k));
    }
}

proof fn lemma_cost_nonneg(evs: Seq<EventView>)
    ensures
        md_cost(evs) >= 0,
    decreases evs.len(),
{
    if evs.len() > 0 {
        lemma_cost_nonneg(evs.drop_last());
    }
}

/// Pieces that fit a document fit it still once it indexes more symbols.
proof fn lemma_fit_grows(d0: Document, d1: Document, ps: Seq<Seq<char>>)
    requires
        d0.pieces_fit(ps),
        forall|k: Seq<char>| #[trigger] d0.symbol_index().contains_key(k) ==> d1.symbol_index().contains_key(k),
    ensures
        d1.pieces_fit(ps),
{
}

/// Where the run over the first `i` events stands: `docs` and `states` a
/// run over them from `d0` and the start state, ending at `d` and `s`;
/// the clocks moved on by at most the bound of those events, no more items
/// than that bound, and the state where `md_mode` says.
#[verifier::opaque]
spec fn run_at(
    d0: Document,
    evs: Seq<EventView>,
    ty: MdTypes,
    i: int,
    docs: Seq<Document>,
    states: Seq<MdState>,
    d: Document,
    s: MdState,
) -> bool {
    &&& 0 <= i <= evs.len()
    &&& md_fits(d0, evs)
    &&& 0 <= d0.storage_of().weave_clock()
    &&& md_run(docs, states, evs.take(i), ty)
    &&& docs[0] == d0
    &&& states[0] == md_start(ty)
    &&& docs.last() == d
    &&& states.last() == s
    &&& d.wf()
    &&& moved_on(d0, d, md_cost(evs.take(i)))
    &&& items_total(s) <= md_cost(evs.take(i))
    &&& (s.code is Some) == md_mode(evs.take(i)).1
    &&& s.stack.len() == md_mode(evs.take(i)).0
}

proof fn lemma_run_start(d0: Document, evs: Seq<EventView>, ty: MdTypes)
    requires
        d0.wf(),
        md_fits(d0, evs),
    ensures
        run_at(d0, evs, ty, 0, seq![d0], seq![md_start(ty)], d0, md_start(ty)),
{
    reveal(run_at);
    assert(evs.take(0) =~= Seq::<EventView>::empty());
    d0.storage_of().lemma_clock_ranges();
}

proof fn lemma_run_ready(
    d0: Document,
    evs: Seq<EventView>,
    ty: MdTypes,
    i: int,
    docs: Seq<Document>,
    states: Seq<MdState>,
    d: Document,
    s: MdState,
)
    requires
        run_at(d0, evs, ty, i, docs, states, d, s),
        i < evs.len(),
    ensures
        d.wf(),
        event_supported(s.code is Some, evs[i]),
        !(s.code is Some) && evs[i] is End ==> s.stack.len() > 0,
        event_texts_fit(d, s.code is Some, evs[i]),
        room_for(d, event_cost(evs[i])),
        items_total(s) + event_cost(evs[i]) < u32::MAX,
{
    reveal(run_at);
    lemma_event_ready(d0, evs, i, d, s);
}

proof fn lemma_run_step(
    d0: Document,
    evs: Seq<EventView>,
    ty: MdTypes,
    i: int,
    docs: Seq<Document>,
    states: Seq<MdState>,
    d: Document,
    s: MdState,
    d1: Document,
    s1: MdState,
)
    requires
        run_at(d0, evs, ty, i, docs, states, d, s),
        i < evs.len(),
        md_step(d, s, evs[i], ty, d1, s1),
        d1.wf(),
        moved_on(d, d1, event_cost(evs[i])),
        items_total(s1) <= items_total(s) + event_cost(evs[i]),
    ensures
        run_at(d0, evs, ty, i + 1, docs.push(d1), states.push(s1), d1, s1),
{
    reveal(run_at);
    lemma_event_ready(d0, evs, i, d, s);
    lemma_run_push(docs, states, evs, i, ty, d1, s1);
    assert(evs.take(i + 1).drop_last() =~= evs.take(i));
    lemma_step_mode(d, s, evs[i], ty, d1, s1, evs.take(i + 1));
}

proof fn lemma_run_end(
    d0: Document,
    evs: Seq<EventView>,
    ty: MdTypes,
    docs: Seq<Document>,
    states: Seq<MdState>,
    d: Document,
    s: MdState,
)
    requires
        run_at(d0, evs, ty, evs.len() as int, docs, states, d, s),
    ensures
        d.wf(),
        d.storage_of().weave_clock() < u32::MAX,
        s.items.len() < u32::MAX,
        md_run(docs, states, evs, ty),
        docs[0] == d0,
        states[0] == md_start(ty),
        docs.last() == d,
        states.last() == s,
{
    reveal(run_at);
    assert(evs.take(evs.len() as int) =~= evs);
    lemma_final_room(d0, evs, d, s);
}

impl Document {
    /// Takes the events into the document, each as `md_step` says, and
    /// makes the items left at the end a new sequence of the document type.
    pub fn import_events(&mut self, events: &Vec<MdEvent>, ty: &MdTypes) -> (r: SequenceId)
        requires
            old(self).wf(),
            md_fits(*old(self), events_view(events@)),
        ensures
            md_imported(*old(self), *final(self), events_view(events@), *ty, r),
    {
        let ghost evs = events_view(events@);
        let ghost d0 = *self;
        let mut b = MdBuilder {
            stack: Vec::new(),
            items: Vec::new(),
            current: ty.document,
            in_code: false,
            tex: false,
            code: Vec::new(),
        };
        let ghost mut docs: Seq<Document> = seq![*self];
        let ghost mut states: Seq<MdState> = seq![b.state()];
        proof {
            assert(b.state().stack =~= Seq::<(TypeId, Seq<Item>)>::empty());
            assert(b.state() == md_start(*ty));
            lemma_run_start(d0, evs, *ty);
        }
        let mut i: usize = 0;
        while i < events.len()
            invariant
                evs == events_view(events@),
                0 <= i <= evs.len(),
                run_at(d0, evs, *ty, i as int, docs, states, *self, b.state()),
            decreases evs.len() - i,
        {
            let e = &events[i];
            let ghost d = *self;
            let ghost s = b.state();
            proof {
                assert(evs[i as int] == e@);
                lemma_run_ready(d0, evs, *ty, i as int, docs, states, d, s);
            }
            self.take_event(&mut b, e, ty);
            proof {
                lemma_run_step(d0, evs, *ty, i as int, docs, states, d, s, *self, b.state());
                docs = docs.push(*self);
                states = states.push(b.state());
            }
            i = i + 1;
        }
        proof {
            lemma_run_end(d0, evs, *ty, docs, states, *self, b.state());
        }
        self.finish_import(b.items, ty, Ghost(d0), Ghost(evs), Ghost(docs), Ghost(states))
    }

    /// Makes the items left after the run the new sequence of the document
    /// type.
    fn finish_import(
        &mut self,
        items: Vec<Item>,
        ty: &MdTypes,
        Ghost(d0): Ghost<Document>,
        Ghost(evs): Ghost<Seq<EventView>>,
        Ghost(docs): Ghost<Seq<Document>>,
        Ghost(states): Ghost<Seq<MdState>>,
    ) -> (r: SequenceId)
        requires
            old(self).wf(),
            old(self).storage_of().weave_clock() < u32::MAX,
            items@.len() < u32::MAX,
            md_run(docs, states, evs, *ty),
            docs[0] == d0,
            states[0] == md_start(*ty),
            docs.last() == *old(self),
            states.last().items == items@,
        ensures
            md_imported(d0, *final(self), evs, *ty, r),
    {
        let r = self.creat_seq_with_items(ty.document, items);
        proof {
            lemma_imported(d0, *self, evs, *ty, r, docs, states);
        }
        r
    }
}

/// The types registered under the names of `md_type_names` in the
/// document.
pub open spec fn md_types_of(d: Document) -> MdTypes {
    let m = d.storage_of().type_name_map();
    let n = md_type_names();
    MdTypes {
        document: m[n[6]],
        paragraph: m[n[7]],
        emphasis: m[n[8]],
        block_quote: m[n[9]],
        inline_code: m[n[10]],
        block_code: m[n[11]],
        list: m[n[12]],
        list_item: m[n[13]],
        headings: [m[n[0]], m[n[1]], m[n[2]], m[n[3]], m[n[4]], m[n[5]]],
    }
}

/// Where every event is supported, starts less ends over a prefix are the
/// elements open outside code blocks, and one more inside a code block.
proof fn lemma_open_count(evs: Seq<EventView>)
    requires
        events_supported(evs),
    ensures
        open_count(evs) == md_mode(evs).0 + (if md_mode(evs).1 { 1int } else { 0int }),
    decreases evs.len(),
{
    if evs.len() > 0 {
        let p = evs.drop_last();
        assert forall|i: int| 0 <= i < p.len() implies event_supported(md_mode(p.take(i)).1, #[trigger] p[i]) by {
            assert(p.take(i) =~= evs.take(i));
            assert(p[i] == evs[i]);
        }
        lemma_open_count(p);
        let k = evs.len() - 1;
        assert(evs.take(k) =~= p);
        assert(event_supported(md_mode(evs.take(k)).1, evs[k]));
    }
}

/// In balanced events that are all supported, every end outside a code
/// block closes an open element.
proof fn lemma_balanced_ends_close(evs: Seq<EventView>)
    requires
        events_supported(evs),
        balanced(evs),
    ensures
        ends_close(evs),
{
    assert forall|i: int| 0 <= i < evs.len() && !md_mode(evs.take(i)).1 && #[trigger] evs[i] is End
        implies md_mode(evs.take(i)).0 > 0 by {
        let p = evs.take(i + 1);
        assert forall|j: int| 0 <= j < p.len() implies event_supported(md_mode(p.take(j)).1, #[trigger] p[j]) by {
            assert(p.take(j) =~= evs.take(j));
            assert(p[j] == evs[j]);
        }
        lemma_open_count(p);
        assert(p.drop_last() =~= evs.take(i));
        assert(open_count(p) >= 0);
        let q = evs.take(i);
        assert forall|j: int| 0 <= j < q.len() implies event_supported(md_mode(q.take(j)).1, #[trigger] q[j]) by {
            assert(q.take(j) =~= evs.take(j));
            assert(q[j] == evs[j]);
        }
        lemma_open_count(q);
    }
}

/// The event at `j` is supported where it stands, and its text fits the
/// document.
#[verifier::opaque]
spec fn fits_at(d: Document, evs: Seq<EventView>, j: int) -> bool {
    event_supported(md_mode(evs.take(j)).1, evs[j]) && event_texts_fit(d, md_mode(evs.take(j)).1, evs[j])
}

/// The first `i` events each fit.
spec fn fit_upto(d: Document, evs: Seq<EventView>, i: int) -> bool {
    forall|j: int| 0 <= j < i ==> #[trigger] fits_at(d, evs, j)
}

proof fn lemma_unfit_at(d: Document, evs: Seq<EventView>, i: int)
    requires
        0 <= i < evs.len(),
        !fits_at(d, evs, i),
    ensures
        !(events_supported(evs) && texts_fit(d, evs)),
{
    reveal(fits_at);
}

proof fn lemma_fit_next(d: Document, evs: Seq<EventView>, i: int)
    requires
        0 <= i < evs.len(),
        fit_upto(d, evs, i),
        fits_at(d, evs, i),
    ensures
        fit_upto(d, evs, i + 1),
{
}

proof fn lemma_mode_next(evs: Seq<EventView>, i: int)
    requires
        0 <= i < evs.len(),
    ensures
        md_cost(evs.take(i + 1)) == md_cost(evs.take(i)) + event_cost(evs[i]),
        md_mode(evs.take(i + 1)).1 == (match evs[i] {
            EventView::Start(TagView::CodeBlock(_)) => true,
            EventView::End => false,
            _ => md_mode(evs.take(i)).1,
        }),
        md_cost(evs.take(i + 1)) <= md_cost(evs),
{
    let p = evs.take(i + 1);
    assert(p.drop_last() =~= evs.take(i));
    assert(p.last() == evs[i]);
    lemma_cost_prefix(evs, i + 1);
}

proof fn lemma_fit_all(d: Document, evs: Seq<EventView>, cost: int)
    requires
        fit_upto(d, evs, evs.len() as int),
        cost == md_cost(evs.take(evs.len() as int)),
    ensures
        events_supported(evs),
        texts_fit(d, evs),
        md_cost(evs) == cost,
{
    reveal(fits_at);
    assert(evs.take(evs.len() as int) =~= evs);
    assert forall|j: int| 0 <= j < evs.len() implies event_supported(md_mode(evs.take(j)).1, #[trigger] evs[j]) by {
        assert(fits_at(d, evs, j));
    }
    assert forall|j: int| 0 <= j < evs.len() implies event_texts_fit(d, md_mode(evs.take(j)).1, #[trigger] evs[j]) by {
        assert(fits_at(d, evs, j));
    }
}

/// Each of the importer's type names is known where the document has
/// the importer's types.
proof fn lemma_md_types_known(d: Document)
    requires
        d.has_md_types(),
    ensures
        d.storage_of().type_name_map().contains_key(md_type_names()[0]),
        d.storage_of().type_name_map().contains_key(md_type_names()[1]),
        d.storage_of().type_name_map().contains_key(md_type_names()[2]),
        d.storage_of().type_name_map().contains_key(md_type_names()[3]),
        d.storage_of().type_name_map().contains_key(md_type_names()[4]),
        d.storage_of().type_name_map().contains_key(md_type_names()[5]),
        d.storage_of().type_name_map().contains_key(md_type_names()[6]),
        d.storage_of().type_name_map().contains_key(md_type_names()[7]),
        d.storage_of().type_name_map().contains_key(md_type_names()[8]),
        d.storage_of().type_name_map().contains_key(md_type_names()[9]),
        d.storage_of().type_name_map().contains_key(md_type_names()[10]),
        d.storage_of().type_name_map().contains_key(md_type_names()[11]),
        d.storage_of().type_name_map().contains_key(md_type_names()[12]),
        d.storage_of().type_name_map().contains_key(md_type_names()[13]),
{
}

impl Document {
    /// The importer's types, found by their names.
    fn md_types(&self) -> (r: MdTypes)
        requires
            self.wf(),
            self.has_md_types(),
        ensures
            r == md_types_of(*self),
    {
        proof {
            self.lemma_storage_wf();
        }
        proof {
            lemma_md_types_known(*self);
        }
        let h1 = self.storage().find_type("header_1").unwrap();
        let h2 = self.storage().find_type("header_2").unwrap();
        let h3 = self.storage().find_type("header_3").unwrap();
        let h4 = self.storage().find_type("header_4").unwrap();
        let h5 = self.storage().find_type("header_5").unwrap();
        let h6 = self.storage().find_type("header_6").unwrap();
        MdTypes {
            document: self.storage().find_type("document").unwrap(),
            paragraph: self.storage().find_type("paragraph").unwrap(),
            emphasis: self.storage().find_type("emphasis").unwrap(),
            block_quote: self.storage().find_type("blockquote").unwrap(),
            inline_code: self.storage().find_type("inline-code").unwrap(),
            block_code: self.storage().find_type("block-code").unwrap(),
            list: self.storage().find_type("list").unwrap(),
            list_item: self.storage().find_type("list-item").unwrap(),
            headings: [h1, h2, h3, h4, h5, h6],
        }
    }

    /// Whether the document has every type the importer uses.
    pub fn has_md_types_check(&self) -> (r: bool)
        requires
            self.wf(),
        ensures
            r == self.has_md_types(),
    {
        proof {
            self.lemma_storage_wf();
        }
        let found = self.storage().find_type("header_1").is_some() && self.storage().find_type("header_2").is_some()
            && self.storage().find_type("header_3").is_some() && self.storage().find_type("header_4").is_some()
            && self.storage().find_type("header_5").is_some() && self.storage().find_type("header_6").is_some()
            && self.storage().find_type("document").is_some() && self.storage().find_type("paragraph").is_some()
            && self.storage().find_type("emphasis").is_some() && self.storage().find_type("blockquote").is_some()
            && self.storage().find_type("inline-code").is_some() && self.storage().find_type("block-code").is_some()
            && self.storage().find_type("list").is_some() && self.storage().find_type("list-item").is_some();
        proof {
            if found {
                assert forall|k: int| 0 <= k < 14 implies self.storage_of().type_name_map().contains_key(
                    #[trigger] md_type_names()[k]) by {
                    if k == 0 {} else if k == 1 {} else if k == 2 {} else if k == 3 {} else if k == 4 {}
                    else if k == 5 {} else if k == 6 {} else if k == 7 {} else if k == 8 {} else if k == 9 {}
                    else if k == 10 {} else if k == 11 {} else if k == 12 {} else {}
                }
            } else {
                assert(!self.has_md_types()) by {
                    if self.has_md_types() {
                        lemma_md_types_known(*self);
                    }
                }
            }
        }
        found
    }

    /// Whether the importer takes the event where it stands (inside a code
    /// block or not), and its text fits.
    fn event_fits(&self, in_code: bool, e: &MdEvent) -> (r: bool)
        requires
            self.wf(),
        ensures
            r == (event_supported(in_code, e@) && event_texts_fit(*self, in_code, e@)),
    {
        match e {
            MdEvent::Start(tag) => {
                if in_code {
                    false
                } else {
                    match tag {
                        MdTag::Heading(l) => *l < 6,
                        MdTag::List(n) => n.is_none(),
                        MdTag::Other => false,
                        MdTag::Item => {
                            proof {
                                reveal_strlit("\u{b7}");
                            }
                            self.text_fits("\u{b7}")
                        },
                        _ => true,
                    }
                }
            },
            MdEvent::Text(t) => in_code || self.text_fits(t.as_str()),
            MdEvent::Code(t) => in_code || self.text_fits(t.as_str()),
            MdEvent::End => true,
            MdEvent::Other => !in_code,
        }
    }

    /// Whether the importer takes the events into the document, as far as
    /// the events alone can fail it: every event supported where it
    /// stands, every text fitting, room on the clocks.
    #[verifier::spinoff_prover]
    pub fn events_fit(&self, events: &Vec<MdEvent>) -> (r: bool)
        requires
            self.wf(),
        ensures
            r == (events_supported(events_view(events@)) && texts_fit(*self, events_view(events@))
                && room_for(*self, md_cost(events_view(events@)))),
    {
        let ghost evs = events_view(events@);
        let mut in_code = false;
        let mut cost: u64 = 0;
        let mut i: usize = 0;
        proof {
            assert(evs.take(0) =~= Seq::<EventView>::empty());
        }
        while i < events.len()
            invariant
                evs == events_view(events@),
                self.wf(),
                0 <= i <= evs.len(),
                in_code == md_mode(evs.take(i as int)).1,
                cost == md_cost(evs.take(i as int)),
                cost <= u32::MAX,
                fit_upto(*self, evs, i as int),
            decreases evs.len() - i,
        {
            let e = &events[i];
            proof {
                assert(evs[i as int] == e@);
            }
            let fits = self.event_fits(in_code, e);
            proof {
                reveal(fits_at);
                assert(fits == fits_at(*self, evs, i as int));
            }
            if !fits {
                proof {
                    lemma_unfit_at(*self, evs, i as int);
                }
                return false;
            }
            let len: usize = match e {
                MdEvent::Text(t) => t.as_str().unicode_len(),
                MdEvent::Code(t) => t.as_str().unicode_len(),
                _ => 0,
            };
            proof {
                lemma_fit_next(*self, evs, i as int);
                lemma_mode_next(evs, i as int);
            }
            if len as u64 >= 0xffff_ffffu64 || cost + len as u64 + 2 > 0xffff_ffffu64 {
                proof {
                    lemma_cost_prefix(evs, i + 1);
                    self.storage_of().lemma_clock_ranges();
                }
                return false;
            }
            cost = cost + len as u64 + 2;
            in_code = match e {
                MdEvent::Start(MdTag::CodeBlock(_)) => true,
                MdEvent::End => false,
                _ => in_code,
            };
            i = i + 1;
        }
        proof {
            lemma_fit_all(*self, evs, cost as int);
        }
        let (weaves, words, symbols, objects) = self.storage().text_clocks();
        (words as u64) + cost <= 0xffff_ffffu64 && (symbols as u64) + cost <= 0xffff_ffffu64
            && (weaves as u64) + cost < 0xffff_ffffu64 && (objects as u64) + cost <= 0xffff_ffffu64
    }

    /// Brings a Markdown text into the document: the events the parser
    /// gives, taken by `import_events` with the types registered under the
    /// names of `md_type_names`.  Every event must be one the importer
    /// takes and every text must fit (the parser's events are balanced, so
    /// every end closes an element).
    pub fn import_markdown(&mut self, text: &str) -> (r: SequenceId)
        requires
            old(self).wf(),
            old(self).has_md_types(),
            events_supported(markdown_parse(text@)),
            texts_fit(*old(self), markdown_parse(text@)),
            room_for(*old(self), md_cost(markdown_parse(text@))),
        ensures
            md_imported(*old(self), *final(self), markdown_parse(text@), md_types_of(*old(self)), r),
    {
        let ty = self.md_types();
        let events = markdown_events(text);
        proof {
            lemma_balanced_ends_close(events_view(events@));
        }
        self.import_events(&events, &ty)
    }

    /// `import_markdown` where the document has the types and the text
    /// fits (see there); otherwise nothing, and nothing changes.
    pub fn try_import_markdown(&mut self, text: &str) -> (r: Option<SequenceId>)
        requires
            old(self).wf(),
        ensures
            r is Some <==> (old(self).has_md_types() && events_supported(markdown_parse(text@))
                && texts_fit(*old(self), markdown_parse(text@))
                && room_for(*old(self), md_cost(markdown_parse(text@)))),
            r matches Some(id) ==> md_imported(*old(self), *final(self), markdown_parse(text@), md_types_of(*old(self)), id),
            r is None ==> *final(self) == *old(self),
    {
        if !self.has_md_types_check() {
            return None;
        }
        let events = markdown_events(text);
        if !self.events_fit(&events) {
            return None;
        }
        Some(self.import_markdown(text))
    }
}

} // verus!
