use vstd::prelude::*;

use crate::string_map::StringMap;

verus! {

/// The kinds of DOM element that make up a BlockNote document.
#[derive(Debug, Clone, Copy, PartialEq, Eq, Structural)]
pub enum BlockNoteDOMElement {
    Editor,
    Block,
    BlockGroup,
    BlockContent,
    InlineContent,
}

/// The kind of content that a block holds.
#[derive(Debug, Clone, Copy, PartialEq, Eq, Structural)]
pub enum ContentType {
    Inline,
    Table,
    Empty,
}

/// Styled inline text.
#[derive(Debug)]
pub struct InlineContent {
    pub text: String,
    pub styles: StringMap,
}

/// One row of a table: each cell is a run of inline text.
#[derive(Debug)]
pub struct TableRow {
    pub cells: Vec<Vec<InlineContent>>,
}

/// The content of a table block.
///
/// `column_widths` holds the widths of the columns as JSON text: an array
/// whose items are numbers or `null`. It is kept as the text it was read
/// from (a `data-column-widths` attribute), not written out anew, so
/// `[100,200]` stays `[100,200]`.
#[derive(Debug)]
pub struct TableContent {
    pub content_type: String,
    pub column_widths: String,
    pub rows: Vec<TableRow>,
}

/// A block of a BlockNote document.
#[derive(Debug)]
pub struct Block {
    pub id: String,
    pub block_type: String,
    pub content: BlockContent,
    pub props: StringMap,
    pub children: Vec<Block>,
}

/// What a block holds.
#[derive(Debug)]
pub enum BlockContent {
    Inline(Vec<InlineContent>),
    Table(TableContent),
    Empty,
}

/// An update to a block: each field that is present replaces the block's.
#[derive(Debug)]
pub struct PartialBlock {
    pub id: Option<String>,
    pub block_type: Option<String>,
    pub content: Option<BlockContent>,
    pub props: Option<StringMap>,
    pub children: Option<Vec<Block>>,
}

/// A block named by its id or given whole.
#[derive(Debug)]
pub enum BlockIdentifier {
    Id(String),
    Block(Block),
}

/// Inline text as plain values.
pub struct InlineView {
    pub text: Seq<char>,
    pub styles: Seq<(Seq<char>, Seq<char>)>,
}

/// A table row as plain values.
pub struct RowView {
    pub cells: Seq<Seq<InlineView>>,
}

/// Table content as plain values.
pub struct TableView {
    pub content_type: Seq<char>,
    pub column_widths: Seq<char>,
    pub rows: Seq<RowView>,
}

/// Block content as plain values.
pub enum ContentView {
    Inline(Seq<InlineView>),
    Table(TableView),
    Empty,
}

/// A block as plain values.
pub struct BlockView {
    pub id: Seq<char>,
    pub block_type: Seq<char>,
    pub content: ContentView,
    pub props: Seq<(Seq<char>, Seq<char>)>,
    pub children: Seq<BlockView>,
}

pub open spec fn inline_view(c: InlineContent) -> InlineView {
    InlineView { text: c.text@, styles: c.styles.pairs() }
}

pub open spec fn inlines_view(s: Seq<InlineContent>) -> Seq<InlineView> {
    s.map_values(|c: InlineContent| inline_view(c))
}

pub open spec fn row_view(r: TableRow) -> RowView {
    RowView { cells: r.cells@.map_values(|c: Vec<InlineContent>| inlines_view(c@)) }
}

pub open spec fn table_view(t: TableContent) -> TableView {
    TableView {
        content_type: t.content_type@,
        column_widths: t.column_widths@,
        rows: t.rows@.map_values(|r: TableRow| row_view(r)),
    }
}

pub open spec fn content_view(c: BlockContent) -> ContentView {
    match c {
        BlockContent::Inline(v) => ContentView::Inline(inlines_view(v@)),
        BlockContent::Table(t) => ContentView::Table(table_view(t)),
        BlockContent::Empty => ContentView::Empty,
    }
}

pub open spec fn block_view(b: Block) -> BlockView
    decreases b,
{
    BlockView {
        id: b.id@,
        block_type: b.block_type@,
        content: content_view(b.content),
        props: b.props.pairs(),
        children: blocks_view(b.children@),
    }
}

pub open spec fn blocks_view(s: Seq<Block>) -> Seq<BlockView>
    decreases s,
{
    Seq::new(s.len(), |i: int| if 0 <= i < s.len() { block_view(s[i]) } else { arbitrary() })
}

impl View for InlineContent {
    type V = InlineView;

    open spec fn view(&self) -> InlineView {
        inline_view(*self)
    }
}

impl View for TableRow {
    type V = RowView;

    open spec fn view(&self) -> RowView {
        row_view(*self)
    }
}

impl View for TableContent {
    type V = TableView;

    open spec fn view(&self) -> TableView {
        table_view(*self)
    }
}

impl View for BlockContent {
    type V = ContentView;

    open spec fn view(&self) -> ContentView {
        content_view(*self)
    }
}

impl View for Block {
    type V = BlockView;

    open spec fn view(&self) -> BlockView {
        block_view(*self)
    }
}


pub proof fn lemma_blocks_view_push(s: Seq<Block>, b: Block)
    ensures
        blocks_view(s.push(b)) == blocks_view(s).push(block_view(b)),
{
    assert(blocks_view(s.push(b)) =~= blocks_view(s).push(block_view(b)));
}

pub proof fn lemma_blocks_view_empty()
    ensures
        blocks_view(Seq::<Block>::empty()) == Seq::<BlockView>::empty(),
{
    assert(blocks_view(Seq::<Block>::empty()) =~= Seq::<BlockView>::empty());
}

pub proof fn lemma_blocks_view_add(s: Seq<Block>, t: Seq<Block>)
    ensures
        blocks_view(s + t) == blocks_view(s) + blocks_view(t),
{
    assert(blocks_view(s + t) =~= blocks_view(s) + blocks_view(t));
}

} // verus!
