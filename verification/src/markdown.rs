use vstd::prelude::*;
use vstd::string::*;

use crate::blocks::{Block, BlockContent, InlineContent, TableRow};
use crate::string_map::lookup;
use crate::text::{ends_with, parse_usize, parse_usize_spec, seq_ends_with, seq_starts_with, str_equal};

verus! {

/// Whether a style map holds `key`.
pub open spec fn has_style(i: InlineContent, key: Seq<char>) -> bool {
    lookup(i.styles.pairs(), key) is Some
}

/// One piece of inline text in Markdown: bold, then italic, then code
/// marks wrap the text; underline has no Markdown form and is left out.
pub open spec fn styled_markdown(i: InlineContent) -> Seq<char> {
    let t0 = i.text@;
    let t1 = if has_style(i, "bold"@) { "**"@ + t0 + "**"@ } else { t0 };
    let t2 = if has_style(i, "italic"@) { "*"@ + t1 + "*"@ } else { t1 };
    if has_style(i, "code"@) { "`"@ + t2 + "`"@ } else { t2 }
}

/// A run of inline text in Markdown.
pub open spec fn inline_markdown(c: Seq<InlineContent>) -> Seq<char>
    decreases c.len(),
{
    if c.len() == 0 {
        Seq::empty()
    } else {
        inline_markdown(c.drop_last()) + styled_markdown(c.last())
    }
}

/// The inline text of a block content, or nothing for other content.
pub open spec fn content_inline_markdown(c: BlockContent) -> Option<Seq<char>> {
    match c {
        BlockContent::Inline(v) => Some(inline_markdown(v@)),
        _ => None,
    }
}

/// The heading level that a block's `level` property gives: its value as a
/// `usize`, or 1 where it is missing or no number.
pub open spec fn heading_level(b: Block) -> nat {
    match lookup(b.props.pairs(), "level"@) {
        Some(l) => match parse_usize_spec(l) {
            Some(n) => n,
            None => 1,
        },
        None => 1,
    }
}

/// The cells of a table row, each as `| text `.
pub open spec fn cells_markdown(cells: Seq<Vec<InlineContent>>) -> Seq<char>
    decreases cells.len(),
{
    if cells.len() == 0 {
        Seq::empty()
    } else {
        cells_markdown(cells.drop_last()) + "| "@ + inline_markdown(cells.last()@) + " "@
    }
}

/// The separator line under the header row: `| --- ` for each cell.
pub open spec fn separator_markdown(n: nat) -> Seq<char>
    decreases n,
{
    if n == 0 {
        Seq::empty()
    } else {
        separator_markdown((n - 1) as nat) + "| --- "@
    }
}

/// The rows after the header, one line each.
pub open spec fn body_rows_markdown(rows: Seq<TableRow>) -> Seq<char>
    decreases rows.len(),
{
    if rows.len() == 0 {
        Seq::empty()
    } else {
        body_rows_markdown(rows.drop_last()) + cells_markdown(rows.last().cells@) + "|\n"@
    }
}

/// A table in Markdown: the first row is the header; nothing for a table
/// without rows.
pub open spec fn table_markdown(rows: Seq<TableRow>) -> Seq<char> {
    if rows.len() == 0 {
        Seq::empty()
    } else {
        cells_markdown(rows[0].cells@) + "|"@ + "\n"@ + separator_markdown(rows[0].cells@.len())
            + "|"@ + "\n"@ + body_rows_markdown(rows.skip(1)) + "\n"@
    }
}

/// A block whose type ends in `ListItem` is a list item.
pub open spec fn is_list_item(b: Block) -> bool {
    seq_ends_with(b.block_type@, "ListItem"@)
}

/// `n` hash marks.
pub open spec fn hashes(n: nat) -> Seq<char> {
    Seq::new(n, |i: int| '#')
}

/// A block in Markdown.
pub open spec fn block_markdown(b: Block) -> Seq<char>
    decreases b,
{
    let inline = content_inline_markdown(b.content);
    if is_list_item(b) {
        let marker = if b.block_type@ == "numberedListItem"@ { "1."@ } else { "-"@ };
        let item = marker + " "@ + match inline {
            Some(t) => t + "\n"@,
            None => Seq::empty(),
        };
        if b.children@.len() > 0 {
            item + "\n"@ + blocks_markdown(b.children@)
        } else {
            item
        }
    } else if b.block_type@ == "paragraph"@ {
        match inline {
            Some(t) => t + "\n\n"@,
            None => Seq::empty(),
        }
    } else if b.block_type@ == "heading"@ {
        hashes(heading_level(b)) + " "@ + match inline {
            Some(t) => t,
            None => Seq::empty(),
        } + "\n\n"@
    } else if b.block_type@ == "codeBlock"@ {
        "```"@ + match lookup(b.props.pairs(), "language"@) {
            Some(l) => l,
            None => Seq::empty(),
        } + "\n"@ + match inline {
            Some(t) => t,
            None => Seq::empty(),
        } + "\n```\n\n"@
    } else if b.block_type@ == "table"@ {
        match b.content {
            BlockContent::Table(t) => table_markdown(t.rows@),
            _ => Seq::empty(),
        }
    } else {
        match inline {
            Some(t) => t + "\n\n"@,
            None => Seq::empty(),
        }
    }
}

/// Blocks in Markdown, one after the other.
pub open spec fn blocks_markdown(s: Seq<Block>) -> Seq<char>
    decreases s,
{
    if s.len() == 0 {
        Seq::empty()
    } else {
        blocks_markdown(s.drop_last()) + block_markdown(s.last())
    }
}

/// Every heading that the Markdown writes (among the blocks and the
/// children of list items) has a level that `"#".repeat` can build.
pub open spec fn levels_fit(s: Seq<Block>) -> bool
    decreases s,
{
    forall|i: int|
        0 <= i < s.len() ==> {
            &&& (s[i].block_type@ == "heading"@ ==> heading_level(s[i]) <= isize::MAX)
            &&& (is_list_item(s[i]) ==> levels_fit(s[i].children@))
        }
}

fn style_text(inline: &InlineContent) -> (r: String)
    ensures
        r@ == styled_markdown(*inline),
{
    let mut text = inline.text.clone();
    if inline.styles.contains_key("bold") {
        let mut t = String::new();
        t.append("**");
        t.append(text.as_str());
        t.append("**");
        text = t;
    }
    if inline.styles.contains_key("italic") {
        let mut t = String::new();
        t.append("*");
        t.append(text.as_str());
        t.append("*");
        text = t;
    }
    if inline.styles.contains_key("code") {
        let mut t = String::new();
        t.append("`");
        t.append(text.as_str());
        t.append("`");
        text = t;
    }
    text
}

/// Converts inline text to Markdown.
pub fn inline_to_markdown(content: &[InlineContent]) -> (r: String)
    ensures
        r@ == inline_markdown(content@),
{
    let mut result = String::new();
    let n = content.len();
    let mut i: usize = 0;
    while i < n
        invariant
            n == content@.len(),
            i <= n,
            result@ == inline_markdown(content@.take(i as int)),
        decreases n - i,
    {
        let text = style_text(&content[i]);
        result.append(text.as_str());
        proof {
            assert(content@.take(i + 1).drop_last() =~= content@.take(i as int));
        }
        i = i + 1;
    }
    assert(content@.take(n as int) =~= content@);
    result
}

fn append_cells(markdown: &mut String, cells: &Vec<Vec<InlineContent>>)
    ensures
        final(markdown)@ == old(markdown)@ + cells_markdown(cells@),
{
    let n = cells.len();
    let mut i: usize = 0;
    while i < n
        invariant
            n == cells@.len(),
            i <= n,
            markdown@ == old(markdown)@ + cells_markdown(cells@.take(i as int)),
        decreases n - i,
    {
        markdown.append("| ");
        let text = inline_to_markdown(cells[i].as_slice());
        markdown.append(text.as_str());
        markdown.append(" ");
        proof {
            assert(cells@.take(i + 1).drop_last() =~= cells@.take(i as int));
        }
        i = i + 1;
    }
    assert(cells@.take(n as int) =~= cells@);
}

fn append_table(markdown: &mut String, rows: &Vec<TableRow>)
    ensures
        final(markdown)@ == old(markdown)@ + table_markdown(rows@),
{
    if rows.len() == 0 {
        return;
    }
    let first_row = &rows[0];
    let mut header = String::new();
    append_cells(&mut header, &first_row.cells);
    header.append("|");
    let mut separator = String::new();
    let m = first_row.cells.len();
    let mut j: usize = 0;
    while j < m
        invariant
            j <= m,
            separator@ == separator_markdown(j as nat),
        decreases m - j,
    {
        separator.append("| --- ");
        j = j + 1;
    }
    separator.append("|");
    markdown.append(header.as_str());
    markdown.append("\n");
    markdown.append(separator.as_str());
    markdown.append("\n");
    let ghost before_body = markdown@;
    let n = rows.len();
    let mut i: usize = 1;
    while i < n
        invariant
            n == rows@.len(),
            1 <= i <= n,
            markdown@ == before_body + body_rows_markdown(rows@.skip(1).take(i - 1)),
        decreases n - i,
    {
        append_cells(markdown, &rows[i].cells);
        markdown.append("|\n");
        proof {
            assert(rows@.skip(1).take(i as int).drop_last() =~= rows@.skip(1).take(i - 1));
            assert(rows@.skip(1).take(i as int).last() == rows@[i as int]);
        }
        i = i + 1;
    }
    assert(rows@.skip(1).take(n - 1) =~= rows@.skip(1));
    markdown.append("\n");
    assert(markdown@ =~= old(markdown)@ + table_markdown(rows@));
}

fn append_block(markdown: &mut String, block: &Block)
    requires
        levels_fit(seq![*block]),
    ensures
        final(markdown)@ == old(markdown)@ + block_markdown(*block),
    decreases block,
{
    proof {
        assert(seq![*block][0] == *block);
    }
    let ghost start = markdown@;
    let list_item = ends_with(block.block_type.as_str(), "ListItem");
    if list_item {
        let is_ordered = str_equal(block.block_type.as_str(), "numberedListItem");
        let list_type = if is_ordered {
            "1."
        } else {
            "-"
        };
        markdown.append(list_type);
        markdown.append(" ");
        if let BlockContent::Inline(content) = &block.content {
            let text = inline_to_markdown(content.as_slice());
            markdown.append(text.as_str());
            markdown.append("\n");
        }
        if block.children.len() > 0 {
            markdown.append("\n");
            let ghost mid = markdown@;
            let n = block.children.len();
            let mut i: usize = 0;
            while i < n
                invariant
                    n == block.children@.len(),
                    i <= n,
                    levels_fit(block.children@),
                    markdown@ == mid + blocks_markdown(block.children@.take(i as int)),
                decreases n - i,
            {
                proof {
                    assert(levels_fit(seq![block.children@[i as int]]));
                }
                append_block(markdown, &block.children[i]);
                proof {
                    assert(block.children@.take(i + 1).drop_last() =~= block.children@.take(
                        i as int,
                    ));
                }
                i = i + 1;
            }
            assert(block.children@.take(n as int) =~= block.children@);
        }
        assert(markdown@ =~= start + block_markdown(*block));
    } else if str_equal(block.block_type.as_str(), "paragraph") {
        if let BlockContent::Inline(content) = &block.content {
            let text = inline_to_markdown(content.as_slice());
            markdown.append(text.as_str());
            markdown.append("\n\n");
        }
        assert(markdown@ =~= start + block_markdown(*block));
    } else if str_equal(block.block_type.as_str(), "heading") {
        let level: usize = match block.props.get("level") {
            Some(l) => match parse_usize(l.as_str()) {
                Some(v) => v,
                None => 1,
            },
            None => 1,
        };
        let mut k: usize = 0;
        while k < level
            invariant
                k <= level,
                markdown@ == start + hashes(k as nat),
            decreases level - k,
        {
            markdown.push('#');
            k = k + 1;
            assert(markdown@ =~= start + hashes(k as nat));
        }
        markdown.append(" ");
        if let BlockContent::Inline(content) = &block.content {
            let text = inline_to_markdown(content.as_slice());
            markdown.append(text.as_str());
        }
        markdown.append("\n\n");
        assert(markdown@ =~= start + block_markdown(*block));
    } else if str_equal(block.block_type.as_str(), "codeBlock") {
        markdown.append("```");
        if let Some(language) = block.props.get("language") {
            markdown.append(language.as_str());
        }
        markdown.append("\n");
        if let BlockContent::Inline(content) = &block.content {
            let text = inline_to_markdown(content.as_slice());
            markdown.append(text.as_str());
        }
        markdown.append("\n```\n\n");
        assert(markdown@ =~= start + block_markdown(*block));
    } else if str_equal(block.block_type.as_str(), "table") {
        if let BlockContent::Table(table) = &block.content {
            append_table(markdown, &table.rows);
        }
        assert(markdown@ =~= start + block_markdown(*block));
    } else {
        if let BlockContent::Inline(content) = &block.content {
            let text = inline_to_markdown(content.as_slice());
            markdown.append(text.as_str());
            markdown.append("\n\n");
        }
        assert(markdown@ =~= start + block_markdown(*block));
    }
}

/// Converts blocks to Markdown with a simplified structure.
/// This produces cleaner Markdown but loses some block structure information.
pub fn blocks_to_markdown_lossy(blocks: &[Block]) -> (markdown: String)
    requires
        levels_fit(blocks@),
    ensures
        markdown@ == blocks_markdown(blocks@),
{
    let mut markdown = String::new();
    let n = blocks.len();
    let mut i: usize = 0;
    while i < n
        invariant
            n == blocks@.len(),
            i <= n,
            levels_fit(blocks@),
            markdown@ == blocks_markdown(blocks@.take(i as int)),
        decreases n - i,
    {
        proof {
            assert(levels_fit(seq![blocks@[i as int]]));
        }
        append_block(&mut markdown, &blocks[i]);
        proof {
            assert(blocks@.take(i + 1).drop_last() =~= blocks@.take(i as int));
        }
        i = i + 1;
    }
    assert(blocks@.take(n as int) =~= blocks@);
    markdown
}


/// The Markdown of blocks one after the other is the Markdown of the first
/// blocks followed by that of the rest: each block is written on its own.
pub proof fn lemma_markdown_of_concat(s: Seq<Block>, t: Seq<Block>)
    ensures
        blocks_markdown(s + t) == blocks_markdown(s) + blocks_markdown(t),
    decreases t.len(),
{
    if t.len() == 0 {
        assert(s + t =~= s);
        assert(blocks_markdown(s) + Seq::<char>::empty() =~= blocks_markdown(s));
    } else {
        lemma_markdown_of_concat(s, t.drop_last());
        assert((s + t).drop_last() =~= s + t.drop_last());
        assert((s + t).last() == t.last());
        assert(blocks_markdown(s + t) =~= blocks_markdown(s) + blocks_markdown(t));
    }
}

/// The Markdown of pieces of inline text one after the other is that of
/// the first pieces followed by that of the rest.
pub proof fn lemma_inline_markdown_of_concat(a: Seq<InlineContent>, b: Seq<InlineContent>)
    ensures
        inline_markdown(a + b) == inline_markdown(a) + inline_markdown(b),
    decreases b.len(),
{
    if b.len() == 0 {
        assert(a + b =~= a);
        assert(inline_markdown(a) + Seq::<char>::empty() =~= inline_markdown(a));
    } else {
        lemma_inline_markdown_of_concat(a, b.drop_last());
        assert((a + b).drop_last() =~= a + b.drop_last());
        assert((a + b).last() == b.last());
        assert(inline_markdown(a + b) =~= inline_markdown(a) + inline_markdown(b));
    }
}

/// List items are written with the marker of their kind: a numbered list
/// item begins its Markdown with `1. `, a bullet list item with `- `,
/// wherever it stands among the blocks.
pub proof fn lemma_list_item_markers(s: Seq<Block>, b: Block)
    ensures
        b.block_type@ == "numberedListItem"@ ==> seq_starts_with(
            blocks_markdown(s.push(b)).skip(blocks_markdown(s).len() as int),
            "1. "@,
        ),
        b.block_type@ == "bulletListItem"@ ==> seq_starts_with(
            blocks_markdown(s.push(b)).skip(blocks_markdown(s).len() as int),
            "- "@,
        ),
{
    reveal_strlit("numberedListItem");
    reveal_strlit("bulletListItem");
    reveal_strlit("ListItem");
    reveal_strlit("1.");
    reveal_strlit("1. ");
    reveal_strlit("-");
    reveal_strlit("- ");
    reveal_strlit(" ");
    assert(s.push(b).drop_last() =~= s);
    let whole = blocks_markdown(s.push(b));
    assert(whole == blocks_markdown(s) + block_markdown(b));
    assert(whole.skip(blocks_markdown(s).len() as int) =~= block_markdown(b));
    if b.block_type@ == "numberedListItem"@ {
        assert(b.block_type@.skip(8) =~= "ListItem"@);
        assert(is_list_item(b));
        assert(block_markdown(b).take(3) =~= "1. "@);
    }
    if b.block_type@ == "bulletListItem"@ {
        assert(b.block_type@.skip(6) =~= "ListItem"@);
        assert(is_list_item(b));
        assert(b.block_type@ != "numberedListItem"@);
        assert(block_markdown(b).take(2) =~= "- "@);
    }
}

} // verus!
