use vstd::prelude::*;
use vstd::string::*;

use crate::blocks::{
    block_view, blocks_view, inlines_view, Block, BlockContent, BlockView, ContentView,
    InlineContent, InlineView, RowView, TableContent, TableRow, TableView,
};
use crate::string_map::StringMap;
use crate::text::{is_whitespace_char, is_ws, to_owned};

verus! {

/// The words of `s` (the runs between white space, as `split_whitespace`
/// gives them), after the words already in `acc` and the word begun in `cur`.
pub open spec fn words_from(s: Seq<char>, cur: Seq<char>, acc: Seq<Seq<char>>) -> Seq<Seq<char>>
    decreases s.len(),
{
    if s.len() == 0 {
        if cur.len() > 0 {
            acc.push(cur)
        } else {
            acc
        }
    } else if is_ws(s[0]) {
        words_from(s.drop_first(), Seq::empty(), if cur.len() > 0 { acc.push(cur) } else { acc })
    } else {
        words_from(s.drop_first(), cur.push(s[0]), acc)
    }
}

/// The words of `s`.
pub open spec fn words(s: Seq<char>) -> Seq<Seq<char>> {
    words_from(s, Seq::empty(), Seq::empty())
}

/// Whether two words of HTML are written together, with no space between:
/// when the first ends a tag or the second begins one.
pub open spec fn tag_between(a: Seq<char>, b: Seq<char>) -> bool {
    (a.len() > 0 && a.last() == '>') || (b.len() > 0 && b[0] == '<')
}

/// Words of HTML joined again: with nothing between two words when a tag
/// ends or begins there, else with one space.
pub open spec fn join_html(w: Seq<Seq<char>>) -> Seq<char>
    decreases w.len(),
{
    if w.len() == 0 {
        Seq::empty()
    } else if w.len() == 1 {
        w[0]
    } else {
        join_html(w.drop_last()) + (if tag_between(w[w.len() - 2], w.last()) {
            Seq::empty()
        } else {
            seq![' ']
        }) + w.last()
    }
}

/// HTML with the white space between tags dropped and every other run of
/// white space made one space, none left at either end.
pub open spec fn normalized_html(s: Seq<char>) -> Seq<char> {
    join_html(words(s))
}

proof fn lemma_join_push(w: Seq<Seq<char>>, x: Seq<char>)
    ensures
        join_html(w.push(x)) == if w.len() == 0 {
            x
        } else {
            join_html(w) + (if tag_between(w.last(), x) {
                Seq::empty()
            } else {
                seq![' ']
            }) + x
        },
{
    assert(w.push(x).drop_last() =~= w);
    if w.len() > 0 {
        assert(w.push(x)[w.len() - 1] == w.last());
    }
}

fn normalize_html(s: &str) -> (r: String)
    ensures
        r@ == normalized_html(s@),
{
    let n = s.unicode_len();
    let mut out = String::new();
    let mut count: usize = 0;
    let mut last_gt = false;
    let mut cur = String::new();
    let ghost mut acc: Seq<Seq<char>> = Seq::empty();
    let mut i: usize = 0;
    assert(s@.skip(0) =~= s@);
    assert(cur@ =~= Seq::<char>::empty());
    while i < n
        invariant
            n == s@.len(),
            i <= n,
            words(s@) == words_from(s@.skip(i as int), cur@, acc),
            out@ == join_html(acc),
            count == acc.len(),
            count <= i,
            count > 0 ==> last_gt == (acc.last().len() > 0 && acc.last().last() == '>'),
        decreases n - i,
    {
        let c = s.get_char(i);
        assert(s@.skip(i as int).drop_first() =~= s@.skip(i + 1));
        assert(s@.skip(i as int)[0] == c);
        if is_whitespace_char(c) {
            let m = cur.unicode_len();
            if m > 0 {
                proof {
                    lemma_join_push(acc, cur@);
                }
                let first = cur.get_char(0);
                if count > 0 && !last_gt && first != '<' {
                    out.push(' ');
                }
                out.append(cur.as_str());
                last_gt = cur.get_char(m - 1) == '>';
                proof {
                    acc = acc.push(cur@);
                }
                count = count + 1;
                assert(out@ =~= join_html(acc));
            }
            cur = String::new();
        } else {
            cur.push(c);
        }
        i = i + 1;
    }
    assert(s@.skip(n as int) =~= Seq::<char>::empty());
    let m = cur.unicode_len();
    if m > 0 {
        proof {
            lemma_join_push(acc, cur@);
        }
        let first = cur.get_char(0);
        if count > 0 && !last_gt && first != '<' {
            out.push(' ');
        }
        out.append(cur.as_str());
        assert(out@ =~= join_html(acc.push(cur@)));
    }
    out
}

/// Whether two HTML strings are equivalent in structure: equal once the
/// white space between tags is dropped and every other run of white space
/// is made one space (see `normalized_html`).
pub fn html_equivalent(html1: &str, html2: &str) -> (r: bool)
    ensures
        r == (normalized_html(html1@) == normalized_html(html2@)),
{
    let normalized1 = normalize_html(html1);
    let normalized2 = normalize_html(html2);
    crate::text::str_equal(normalized1.as_str(), normalized2.as_str())
}

/// Verifies that two HTML strings are equivalent in structure (see
/// `html_equivalent`). This library's functions do not panic, so the check
/// is a precondition: a caller has it proved, or tests `html_equivalent`.
pub fn assert_html_equivalent(html1: &str, html2: &str)
    requires
        normalized_html(html1@) == normalized_html(html2@),
{
    let same = html_equivalent(html1, html2);
    assert(same);
}


/// Plain text.
pub open spec fn plain_piece(t: Seq<char>) -> InlineView {
    InlineView { text: t, styles: Seq::empty() }
}

/// Text with one style.
pub open spec fn styled_piece(t: Seq<char>, style: Seq<char>) -> InlineView {
    InlineView { text: t, styles: seq![(style, "true"@)] }
}

pub open spec fn simple_block(
    id: Seq<char>,
    block_type: Seq<char>,
    content: Seq<InlineView>,
    props: Seq<(Seq<char>, Seq<char>)>,
    children: Seq<BlockView>,
) -> BlockView {
    BlockView { id, block_type, content: ContentView::Inline(content), props, children }
}

/// The document of every kind of block that `create_test_document` builds:
/// a heading, a paragraph with bold and italic text, a Rust code block, a
/// list item with a nested item, and a two-by-two table.
pub open spec fn test_document() -> Seq<BlockView> {
    seq![
        simple_block("h1"@, "heading"@, seq![plain_piece("Test Document"@)], seq![("level"@, "1"@)], Seq::empty()),
        simple_block(
            "p1"@,
            "paragraph"@,
            seq![
                plain_piece("This is a "@),
                styled_piece("bold"@, "bold"@),
                plain_piece(" and "@),
                styled_piece("italic"@, "italic"@),
                plain_piece(" text."@),
            ],
            Seq::empty(),
            Seq::empty(),
        ),
        simple_block(
            "code1"@,
            "codeBlock"@,
            seq![plain_piece("fn main() {\n    println!(\"Hello, World!\");\n}"@)],
            seq![("language"@, "rust"@)],
            Seq::empty(),
        ),
        simple_block(
            "li1"@,
            "bulletListItem"@,
            seq![plain_piece("First item"@)],
            Seq::empty(),
            seq![simple_block("li1.1"@, "bulletListItem"@, seq![plain_piece("Nested item"@)], Seq::empty(), Seq::empty())],
        ),
        BlockView {
            id: "table1"@,
            block_type: "table"@,
            content: ContentView::Table(
                TableView {
                    content_type: "default"@,
                    column_widths: "[100.0,200.0]"@,
                    rows: seq![
                        RowView { cells: seq![seq![plain_piece("Header 1"@)], seq![plain_piece("Header 2"@)]] },
                        RowView { cells: seq![seq![plain_piece("Cell 1"@)], seq![plain_piece("Cell 2"@)]] },
                    ],
                },
            ),
            props: Seq::empty(),
            children: Seq::empty(),
        },
    ]
}

fn piece(text: &str) -> (r: InlineContent)
    ensures
        r@ == plain_piece(text@),
{
    InlineContent { text: to_owned(text), styles: StringMap::new() }
}

fn styled(text: &str, style: &str) -> (r: InlineContent)
    ensures
        r@ == styled_piece(text@, style@),
{
    let mut styles = StringMap::new();
    styles.insert(to_owned(style), to_owned("true"));
    InlineContent { text: to_owned(text), styles }
}

fn one(p: InlineContent) -> (r: Vec<InlineContent>)
    ensures
        inlines_view(r@) == seq![p@],
{
    let mut v: Vec<InlineContent> = Vec::new();
    v.push(p);
    assert(inlines_view(v@) =~= seq![p@]);
    v
}

fn prop(key: &str, value: &str) -> (r: StringMap)
    ensures
        r.pairs() == seq![(key@, value@)],
{
    let mut m = StringMap::new();
    m.insert(to_owned(key), to_owned(value));
    m
}

fn leaf(id: &str, block_type: &str, content: Vec<InlineContent>, props: StringMap) -> (r: Block)
    ensures
        block_view(r) == simple_block(id@, block_type@, inlines_view(content@), props.pairs(), Seq::empty()),
{
    let children: Vec<Block> = Vec::new();
    assert(blocks_view(children@) =~= Seq::<BlockView>::empty());
    Block { id: to_owned(id), block_type: to_owned(block_type), content: BlockContent::Inline(content), props, children }
}

fn cell(text: &str) -> (r: Vec<InlineContent>)
    ensures
        inlines_view(r@) == seq![plain_piece(text@)],
{
    one(piece(text))
}

fn row(a: &str, b: &str) -> (r: TableRow)
    ensures
        r@ == (RowView { cells: seq![seq![plain_piece(a@)], seq![plain_piece(b@)]] }),
{
    let mut cells: Vec<Vec<InlineContent>> = Vec::new();
    cells.push(cell(a));
    cells.push(cell(b));
    let r = TableRow { cells };
    assert(r@.cells =~= seq![seq![plain_piece(a@)], seq![plain_piece(b@)]]);
    r
}

/// Creates a document with every kind of block, for tests (see
/// `test_document`).
pub fn create_test_document() -> (blocks: Vec<Block>)
    ensures
        blocks_view(blocks@) == test_document(),
{
    let mut blocks: Vec<Block> = Vec::new();

    let heading = leaf("h1", "heading", one(piece("Test Document")), prop("level", "1"));
    blocks.push(heading);

    let mut pieces: Vec<InlineContent> = Vec::new();
    pieces.push(piece("This is a "));
    pieces.push(styled("bold", "bold"));
    pieces.push(piece(" and "));
    pieces.push(styled("italic", "italic"));
    pieces.push(piece(" text."));
    let ghost pv = inlines_view(pieces@);
    let paragraph = leaf("p1", "paragraph", pieces, StringMap::new());
    blocks.push(paragraph);

    let code_block = leaf(
        "code1",
        "codeBlock",
        one(piece("fn main() {\n    println!(\"Hello, World!\");\n}")),
        prop("language", "rust"),
    );
    blocks.push(code_block);

    let nested = leaf("li1.1", "bulletListItem", one(piece("Nested item")), StringMap::new());
    let mut kids: Vec<Block> = Vec::new();
    kids.push(nested);
    let ghost kv = blocks_view(kids@);
    let list_item = Block {
        id: to_owned("li1"),
        block_type: to_owned("bulletListItem"),
        content: BlockContent::Inline(one(piece("First item"))),
        props: StringMap::new(),
        children: kids,
    };
    blocks.push(list_item);

    let mut rows: Vec<TableRow> = Vec::new();
    rows.push(row("Header 1", "Header 2"));
    rows.push(row("Cell 1", "Cell 2"));
    let ghost rv = rows@;
    let table = Block {
        id: to_owned("table1"),
        block_type: to_owned("table"),
        content: BlockContent::Table(
            TableContent {
                content_type: to_owned("default"),
                column_widths: to_owned("[100.0,200.0]"),
                rows,
            },
        ),
        props: StringMap::new(),
        children: Vec::new(),
    };
    blocks.push(table);
    proof {
        let t = test_document();
        assert(pv =~= t[1].content->Inline_0);
        assert(kv =~= t[3].children);
        assert(rv.map_values(|r: TableRow| crate::blocks::row_view(r)) =~= (t[4].content->Table_0).rows);
        assert(blocks_view(table.children@) =~= Seq::<BlockView>::empty());
        assert(blocks_view(blocks@) =~= t);
    }
    blocks
}

} // verus!
