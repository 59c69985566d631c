//! The document model: fully resolved content, ready to be rendered.
//!
//! Every executable type has a view: a value of the matching `Spec` type,
//! with strings and vectors seen as sequences. Contracts speak of views.
use vstd::prelude::*;

verus! {

/// Character styling of a text run.
#[derive(Clone, Copy, Debug, PartialEq, Eq, Structural)]
pub struct Style {
    pub bold: bool,
    pub italic: bool,
}

/// Inline content of paragraphs, headings and links.
#[derive(Debug)]
pub enum Inline {
    /// A run of text in one style.
    Text { text: String, style: Style },
    /// A hyperlink around inline content.
    Link { content: Vec<Inline>, url: String },
    /// A reference to a note by its document-scoped id.
    NoteRef(String),
    /// A forced line break.
    LineBreak,
}

/// How the items of a list are marked.
#[derive(Clone, Copy, Debug, PartialEq, Eq, Structural)]
pub enum MarkerKind {
    Bullet,
    Decimal,
    LowerAlpha,
    UpperAlpha,
    LowerRoman,
    UpperRoman,
}

/// One item of a list.
#[derive(Debug)]
pub struct ListItem {
    /// The item's content.
    pub blocks: Vec<Block>,
    /// Literal marker text that the source gave this item, if any.
    pub marker_label: Option<String>,
    /// Task-list state: checked, unchecked, or not a task.
    pub checked: Option<bool>,
}

/// A list: its marker kind, the number of its first item, and its items.
#[derive(Debug)]
pub struct List {
    pub marker: MarkerKind,
    pub start: u64,
    pub items: Vec<ListItem>,
}

/// Whether a table holds data or only arranges content on the page.
#[derive(Clone, Copy, Debug, PartialEq, Eq, Structural)]
pub enum TableKind {
    Data,
    Layout,
}

/// The content of one table cell.
#[derive(Debug)]
pub struct Cell {
    pub blocks: Vec<Block>,
}

/// A slot of a table grid: where a cell starts, or covered by a cell that
/// spans into it.
#[derive(Debug)]
pub enum CellSlot {
    Origin(Cell),
    Covered,
}

/// A table, as a grid of slots in rows.
#[derive(Debug)]
pub struct Table {
    pub kind: TableKind,
    pub grid: Vec<Vec<CellSlot>>,
}

/// Block-level content.
#[derive(Debug)]
pub enum Block {
    Heading { level: u8, content: Vec<Inline> },
    Paragraph(Vec<Inline>),
    List(List),
    Table(Table),
    BlockQuote(Vec<Block>),
    CodeBlock { lang: Option<String>, text: String },
    Rule,
}

/// An embedded resource, carrying its bytes.
#[derive(Clone, Debug)]
pub struct Asset {
    pub name: String,
    pub media_type: String,
    pub bytes: Vec<u8>,
}

/// A parsed document: its metadata, its body, its notes, and the bytes of
/// everything it embedded.
#[derive(Clone, Debug)]
pub struct Document {
    /// Document-level metadata; empty when the source names none.
    pub meta: DocumentMeta,
    /// Body content in reading order.
    pub blocks: Vec<Block>,
    /// Note bodies, in the order the document defines them. Text refers to
    /// them by id through `Inline::NoteRef`.
    pub notes: Vec<Note>,
    /// Every embedded asset.
    pub assets: Vec<Asset>,
}

/// Document-level metadata. Every field is optional; a source that names none
/// yields the default (all empty), which renders no output.
#[derive(Clone, Debug, PartialEq, Eq)]
pub struct DocumentMeta {
    pub title: Option<String>,
    /// Authors, in source order.
    pub authors: Vec<String>,
    pub language: Option<String>,
    pub date: Option<String>,
    pub publisher: Option<String>,
    pub description: Option<String>,
}

/// Footnote or endnote body, referenced from text by `Inline::NoteRef`.
#[derive(Debug)]
pub struct Note {
    /// Document-scoped id that the referencing `Inline::NoteRef` carries.
    pub id: String,
    /// Whether the source placed this note on the page or at the end.
    pub kind: NoteKind,
    /// The note's own content.
    pub blocks: Vec<Block>,
}

/// Where the source document places a note.
#[derive(Clone, Copy, Debug, PartialEq, Eq, Structural)]
pub enum NoteKind {
    /// Placed at the foot of the page that references it.
    Footnote,
    /// Collected at the end of the document or section.
    Endnote,
}

// ---------------------------------------------------------------------------
// Views

/// The view of an `Inline`.
pub enum SpecInline {
    Text { text: Seq<char>, style: Style },
    Link { content: Seq<SpecInline>, url: Seq<char> },
    NoteRef(Seq<char>),
    LineBreak,
}

/// The view of a `ListItem`.
pub struct SpecItem {
    pub blocks: Seq<SpecBlock>,
    pub marker_label: Option<Seq<char>>,
    pub checked: Option<bool>,
}

/// The view of a `List`.
pub struct SpecList {
    pub marker: MarkerKind,
    pub start: u64,
    pub items: Seq<SpecItem>,
}

/// The view of a `CellSlot`: an origin slot holds its cell's blocks.
pub enum SpecSlot {
    Origin(Seq<SpecBlock>),
    Covered,
}

/// The view of a `Table`.
pub struct SpecTable {
    pub kind: TableKind,
    pub grid: Seq<Seq<SpecSlot>>,
}

/// The view of a `Block`.
pub enum SpecBlock {
    Heading { level: u8, content: Seq<SpecInline> },
    Paragraph(Seq<SpecInline>),
    List(SpecList),
    Table(SpecTable),
    BlockQuote(Seq<SpecBlock>),
    CodeBlock { lang: Option<Seq<char>>, text: Seq<char> },
    Rule,
}

/// The view of a `Note`.
pub struct SpecNote {
    pub id: Seq<char>,
    pub kind: NoteKind,
    pub blocks: Seq<SpecBlock>,
}

/// The view of a `DocumentMeta`.
pub struct SpecMeta {
    pub title: Option<Seq<char>>,
    pub authors: Seq<Seq<char>>,
    pub language: Option<Seq<char>>,
    pub date: Option<Seq<char>>,
    pub publisher: Option<Seq<char>>,
    pub description: Option<Seq<char>>,
}

/// The view of a `Document`: what rendering reads of it.
pub struct SpecDocument {
    pub meta: SpecMeta,
    pub blocks: Seq<SpecBlock>,
    pub notes: Seq<SpecNote>,
}

pub open spec fn opt_view(o: Option<String>) -> Option<Seq<char>> {
    match o {
        Some(s) => Some(s@),
        None => None,
    }
}

pub open spec fn strings_view(s: Seq<String>) -> Seq<Seq<char>> {
    s.map_values(|x: String| x@)
}

pub open spec fn inline_view(i: Inline) -> SpecInline
    decreases i,
{
    match i {
        Inline::Text { text, style } => SpecInline::Text { text: text@, style },
        Inline::Link { content, url } => SpecInline::Link {
            content: inlines_view(content@),
            url: url@,
        },
        Inline::NoteRef(id) => SpecInline::NoteRef(id@),
        Inline::LineBreak => SpecInline::LineBreak,
    }
}

pub open spec fn inlines_view(s: Seq<Inline>) -> Seq<SpecInline>
    decreases s,
{
    Seq::new(
        s.len(),
        |i: int|
            if 0 <= i < s.len() {
                inline_view(s[i])
            } else {
                SpecInline::LineBreak
            },
    )
}

impl View for Inline {
    type V = SpecInline;

    open spec fn view(&self) -> SpecInline {
        inline_view(*self)
    }
}


pub open spec fn block_view(b: Block) -> SpecBlock
    decreases b,
{
    match b {
        Block::Heading { level, content } => SpecBlock::Heading {
            level,
            content: inlines_view(content@),
        },
        Block::Paragraph(content) => SpecBlock::Paragraph(inlines_view(content@)),
        Block::List(list) => SpecBlock::List(list_view(list)),
        Block::Table(table) => SpecBlock::Table(table_view(table)),
        Block::BlockQuote(blocks) => SpecBlock::BlockQuote(blocks_view(blocks@)),
        Block::CodeBlock { lang, text } => SpecBlock::CodeBlock { lang: opt_view(lang), text: text@ },
        Block::Rule => SpecBlock::Rule,
    }
}

pub open spec fn blocks_view(s: Seq<Block>) -> Seq<SpecBlock>
    decreases s,
{
    Seq::new(
        s.len(),
        |i: int|
            if 0 <= i < s.len() {
                block_view(s[i])
            } else {
                SpecBlock::Rule
            },
    )
}

pub open spec fn list_view(l: List) -> SpecList
    decreases l,
{
    SpecList { marker: l.marker, start: l.start, items: items_view(l.items@) }
}

pub open spec fn item_view(it: ListItem) -> SpecItem
    decreases it,
{
    SpecItem {
        blocks: blocks_view(it.blocks@),
        marker_label: opt_view(it.marker_label),
        checked: it.checked,
    }
}

pub open spec fn items_view(s: Seq<ListItem>) -> Seq<SpecItem>
    decreases s,
{
    Seq::new(
        s.len(),
        |i: int|
            if 0 <= i < s.len() {
                item_view(s[i])
            } else {
                SpecItem { blocks: Seq::empty(), marker_label: None, checked: None }
            },
    )
}

pub open spec fn slot_view(slot: CellSlot) -> SpecSlot
    decreases slot,
{
    match slot {
        CellSlot::Origin(cell) => SpecSlot::Origin(blocks_view(cell.blocks@)),
        CellSlot::Covered => SpecSlot::Covered,
    }
}

pub open spec fn row_view(s: Seq<CellSlot>) -> Seq<SpecSlot>
    decreases s,
{
    Seq::new(
        s.len(),
        |i: int|
            if 0 <= i < s.len() {
                slot_view(s[i])
            } else {
                SpecSlot::Covered
            },
    )
}

pub open spec fn grid_view(s: Seq<Vec<CellSlot>>) -> Seq<Seq<SpecSlot>>
    decreases s,
{
    Seq::new(
        s.len(),
        |i: int|
            if 0 <= i < s.len() {
                row_view(s[i]@)
            } else {
                Seq::empty()
            },
    )
}

pub open spec fn table_view(t: Table) -> SpecTable
    decreases t,
{
    SpecTable { kind: t.kind, grid: grid_view(t.grid@) }
}

impl View for Block {
    type V = SpecBlock;

    open spec fn view(&self) -> SpecBlock {
        block_view(*self)
    }
}

impl View for ListItem {
    type V = SpecItem;

    open spec fn view(&self) -> SpecItem {
        item_view(*self)
    }
}

impl View for List {
    type V = SpecList;

    open spec fn view(&self) -> SpecList {
        list_view(*self)
    }
}

impl View for CellSlot {
    type V = SpecSlot;

    open spec fn view(&self) -> SpecSlot {
        slot_view(*self)
    }
}

impl View for Table {
    type V = SpecTable;

    open spec fn view(&self) -> SpecTable {
        table_view(*self)
    }
}

impl View for Note {
    type V = SpecNote;

    open spec fn view(&self) -> SpecNote {
        SpecNote { id: self.id@, kind: self.kind, blocks: blocks_view(self.blocks@) }
    }
}

pub open spec fn notes_view(s: Seq<Note>) -> Seq<SpecNote> {
    s.map_values(|n: Note| n@)
}

impl View for DocumentMeta {
    type V = SpecMeta;

    open spec fn view(&self) -> SpecMeta {
        SpecMeta {
            title: opt_view(self.title),
            authors: strings_view(self.authors@),
            language: opt_view(self.language),
            date: opt_view(self.date),
            publisher: opt_view(self.publisher),
            description: opt_view(self.description),
        }
    }
}

impl SpecMeta {
    /// No field is present.
    pub open spec fn is_empty(self) -> bool {
        &&& self.title is None
        &&& self.authors.len() == 0
        &&& self.language is None
        &&& self.date is None
        &&& self.publisher is None
        &&& self.description is None
    }
}

impl DocumentMeta {
    /// Whether the source named any metadata at all.
    pub fn is_empty(&self) -> (b: bool)
        ensures
            b == self@.is_empty(),
    {
        self.title.is_none() && self.authors.len() == 0 && self.language.is_none()
            && self.date.is_none() && self.publisher.is_none() && self.description.is_none()
    }
}

impl Default for DocumentMeta {
    fn default() -> (m: DocumentMeta)
        ensures
            m@.is_empty(),
    {
        DocumentMeta {
            title: None,
            authors: Vec::new(),
            language: None,
            date: None,
            publisher: None,
            description: None,
        }
    }
}


impl View for Document {
    type V = SpecDocument;

    open spec fn view(&self) -> SpecDocument {
        SpecDocument {
            meta: self.meta@,
            blocks: blocks_view(self.blocks@),
            notes: notes_view(self.notes@),
        }
    }
}

impl Default for Document {
    fn default() -> (d: Document)
        ensures
            d@.meta.is_empty(),
            d@.blocks.len() == 0,
            d@.notes.len() == 0,
            d.assets@.len() == 0,
    {
        Document {
            meta: DocumentMeta::default(),
            blocks: Vec::new(),
            notes: Vec::new(),
            assets: Vec::new(),
        }
    }
}

pub proof fn lemma_strings_push(v: Seq<String>, x: String)
    ensures
        strings_view(v.push(x)) == strings_view(v).push(x@),
{
    assert(strings_view(v.push(x)) =~= strings_view(v).push(x@));
}

// ---------------------------------------------------------------------------
// Copies

fn copy_opt(o: &Option<String>) -> (out: Option<String>)
    ensures
        opt_view(out) == opt_view(*o),
{
    match o {
        Some(x) => Some(x.clone()),
        None => None,
    }
}

/// A copy of inline content with the same view.
pub fn copy_inline(i: &Inline) -> (out: Inline)
    ensures
        out@ == i@,
    decreases i,
{
    match i {
        Inline::Text { text, style } => Inline::Text { text: text.clone(), style: *style },
        Inline::Link { content, url } => Inline::Link {
            content: copy_inlines(content),
            url: url.clone(),
        },
        Inline::NoteRef(id) => Inline::NoteRef(id.clone()),
        Inline::LineBreak => Inline::LineBreak,
    }
}

pub fn copy_inlines(v: &Vec<Inline>) -> (out: Vec<Inline>)
    ensures
        inlines_view(out@) == inlines_view(v@),
    decreases v,
{
    let mut out: Vec<Inline> = Vec::new();
    let mut i: usize = 0;
    while i < v.len()
        invariant
            i <= v.len(),
            out@.len() == i,
            forall|k: int| 0 <= k < i ==> inline_view(#[trigger] out@[k]) == inline_view(v@[k]),
        decreases v.len() - i,
    {
        assert(decreases_to!(v => v@[i as int]));
        let c = copy_inline(&v[i]);
        out.push(c);
        i = i + 1;
    }
    assert(inlines_view(out@) =~= inlines_view(v@));
    out
}

pub fn copy_block(b: &Block) -> (out: Block)
    ensures
        out@ == b@,
    decreases b,
{
    match b {
        Block::Heading { level, content } => Block::Heading {
            level: *level,
            content: copy_inlines(content),
        },
        Block::Paragraph(content) => Block::Paragraph(copy_inlines(content)),
        Block::List(list) => Block::List(copy_list(list)),
        Block::Table(t) => Block::Table(copy_table(t)),
        Block::BlockQuote(blocks) => Block::BlockQuote(copy_blocks(blocks)),
        Block::CodeBlock { lang, text } => Block::CodeBlock { lang: copy_opt(lang), text: text.clone() },
        Block::Rule => Block::Rule,
    }
}

pub fn copy_blocks(v: &Vec<Block>) -> (out: Vec<Block>)
    ensures
        blocks_view(out@) == blocks_view(v@),
    decreases v,
{
    let mut out: Vec<Block> = Vec::new();
    let mut i: usize = 0;
    while i < v.len()
        invariant
            i <= v.len(),
            out@.len() == i,
            forall|k: int| 0 <= k < i ==> block_view(#[trigger] out@[k]) == block_view(v@[k]),
        decreases v.len() - i,
    {
        assert(decreases_to!(v => v@[i as int]));
        let c = copy_block(&v[i]);
        out.push(c);
        i = i + 1;
    }
    assert(blocks_view(out@) =~= blocks_view(v@));
    out
}

pub fn copy_list(l: &List) -> (out: List)
    ensures
        out@ == l@,
    decreases l,
{
    let mut items: Vec<ListItem> = Vec::new();
    let mut i: usize = 0;
    while i < l.items.len()
        invariant
            i <= l.items.len(),
            items@.len() == i,
            forall|k: int| 0 <= k < i ==> item_view(#[trigger] items@[k]) == item_view(l.items@[k]),
        decreases l.items.len() - i,
    {
        assert(decreases_to!(l => l.items));
        assert(decreases_to!(l.items => l.items@[i as int]));
        let it = &l.items[i];
        let c = ListItem {
            blocks: copy_blocks(&it.blocks),
            marker_label: copy_opt(&it.marker_label),
            checked: it.checked,
        };
        items.push(c);
        i = i + 1;
    }
    assert(items_view(items@) =~= items_view(l.items@));
    List { marker: l.marker, start: l.start, items }
}

fn copy_row(v: &Vec<CellSlot>) -> (out: Vec<CellSlot>)
    ensures
        row_view(out@) == row_view(v@),
    decreases v,
{
    let mut out: Vec<CellSlot> = Vec::new();
    let mut i: usize = 0;
    while i < v.len()
        invariant
            i <= v.len(),
            out@.len() == i,
            forall|k: int| 0 <= k < i ==> slot_view(#[trigger] out@[k]) == slot_view(v@[k]),
        decreases v.len() - i,
    {
        assert(decreases_to!(v => v@[i as int]));
        let c = match &v[i] {
            CellSlot::Origin(cell) => CellSlot::Origin(Cell { blocks: copy_blocks(&cell.blocks) }),
            CellSlot::Covered => CellSlot::Covered,
        };
        out.push(c);
        i = i + 1;
    }
    assert(row_view(out@) =~= row_view(v@));
    out
}

pub fn copy_table(t: &Table) -> (out: Table)
    ensures
        out@ == t@,
    decreases t,
{
    let mut grid: Vec<Vec<CellSlot>> = Vec::new();
    let mut i: usize = 0;
    while i < t.grid.len()
        invariant
            i <= t.grid.len(),
            grid@.len() == i,
            forall|k: int| 0 <= k < i ==> row_view(#[trigger] grid@[k]@) == row_view(t.grid@[k]@),
        decreases t.grid.len() - i,
    {
        assert(decreases_to!(t => t.grid));
        assert(decreases_to!(t.grid => t.grid@[i as int]));
        let r = copy_row(&t.grid[i]);
        grid.push(r);
        i = i + 1;
    }
    assert(grid_view(grid@) =~= grid_view(t.grid@));
    Table { kind: t.kind, grid }
}

impl Clone for Inline {
    fn clone(&self) -> (out: Self)
        ensures
            out@ == self@,
    {
        copy_inline(self)
    }
}

impl Clone for Block {
    fn clone(&self) -> (out: Self)
        ensures
            out@ == self@,
    {
        copy_block(self)
    }
}

impl Clone for Note {
    fn clone(&self) -> (out: Self)
        ensures
            out@ == self@,
    {
        Note { id: self.id.clone(), kind: self.kind, blocks: copy_blocks(&self.blocks) }
    }
}

} // verus!
