use blocknote_rs::{
    blocks_to_full_html, blocks_to_html_lossy, blocks_to_markdown_lossy, create_test_document,
    try_parse_html_to_blocks, try_parse_markdown_to_blocks, Block, BlockContent, InlineContent,
    StringMap,
};

fn same_map(a: &StringMap, b: &StringMap) -> bool {
    a.len() == b.len() && (0..b.len()).all(|i| a.get(b.key_at(i)) == Some(b.value_at(i)))
}

fn same_pieces(a: &[InlineContent], b: &[InlineContent]) -> bool {
    a.len() == b.len() && a.iter().zip(b.iter()).all(|(x, y)| x.text == y.text && same_map(&x.styles, &y.styles))
}

fn same_content(a: &BlockContent, b: &BlockContent) -> bool {
    match (a, b) {
        (BlockContent::Inline(x), BlockContent::Inline(y)) => same_pieces(x, y),
        (BlockContent::Table(x), BlockContent::Table(y)) => {
            x.content_type == y.content_type
                && x.column_widths == y.column_widths
                && x.rows.len() == y.rows.len()
                && x.rows.iter().zip(y.rows.iter()).all(|(r, s)| {
                    r.cells.len() == s.cells.len()
                        && r.cells.iter().zip(s.cells.iter()).all(|(c, d)| same_pieces(c, d))
                })
        }
        (BlockContent::Empty, BlockContent::Empty) => true,
        _ => false,
    }
}

/// Equal in everything but the ids, at every depth.
fn same_but_ids(a: &Block, b: &Block) -> bool {
    a.block_type == b.block_type
        && same_content(&a.content, &b.content)
        && same_map(&a.props, &b.props)
        && a.children.len() == b.children.len()
        && a.children.iter().zip(b.children.iter()).all(|(x, y)| same_but_ids(x, y))
}

#[test]
fn mod_test_html_roundtrip() {
    let blocks = create_test_document();

    // Full HTML conversion (lossless): only the ids are new.
    let html = blocks_to_full_html(&blocks);
    let parsed_blocks = try_parse_html_to_blocks(&html);
    assert_eq!(parsed_blocks.len(), blocks.len());
    for (p, b) in parsed_blocks.iter().zip(blocks.iter()) {
        assert!(same_but_ids(p, b));
    }

    // Lossy HTML conversion.
    let lossy_html = blocks_to_html_lossy(&blocks);
    let parsed_lossy_blocks = try_parse_html_to_blocks(&lossy_html);
    assert_eq!(parsed_lossy_blocks.len(), blocks.len());
}

#[test]
fn mod_test_markdown_conversion() {
    let blocks = create_test_document();

    let markdown = blocks_to_markdown_lossy(&blocks);
    let parsed_blocks = try_parse_markdown_to_blocks(&markdown).unwrap();

    assert_eq!(parsed_blocks.len(), blocks.len());
    assert_eq!(parsed_blocks[0].block_type, "heading");
    assert_eq!(parsed_blocks[1].block_type, "paragraph");
    assert_eq!(parsed_blocks[2].block_type, "codeBlock");
    assert!(markdown.starts_with(
        "# Test Document\n\nThis is a **bold** and *italic* text.\n\n```rust\nfn main() {\n    println!(\"Hello, World!\");\n}\n```"
    ));
}

#[test]
fn test_html_formatting() {
    let blocks = create_test_document();

    let html = blocks_to_full_html(&blocks);

    assert!(html.contains(r#"<div class="bn-block-group">"#));
    let heading = html.find(r#"data-type="heading""#).unwrap();
    let paragraph = html.find(r#"data-type="paragraph""#).unwrap();
    let code = html.find(r#"data-type="codeBlock""#).unwrap();
    assert!(heading < paragraph && paragraph < code);
    assert!(html.contains("Test Document"));
    assert!(html.contains(r#"data-prop-level="1""#));
    assert!(html.contains(r#"data-prop-language="rust""#));
}
