use blocknote_rs::{blocks_to_markdown_lossy, Block, BlockContent, InlineContent, StringMap};

fn text(t: &str) -> InlineContent {
    InlineContent { text: t.to_string(), styles: StringMap::new() }
}

#[test]
fn test_blocks_to_markdown_simple() {
    let mut styles = StringMap::new();
    styles.insert("bold".to_string(), "true".to_string());

    let block = Block {
        id: "test".to_string(),
        block_type: "paragraph".to_string(),
        content: BlockContent::Inline(vec![
            InlineContent { text: "Hello ".to_string(), styles: StringMap::new() },
            InlineContent { text: "World".to_string(), styles },
        ]),
        props: StringMap::new(),
        children: vec![],
    };

    let markdown = blocks_to_markdown_lossy(&[block]);
    assert_eq!(markdown, "Hello **World**\n\n");
}

#[test]
fn test_blocks_to_markdown_list() {
    let block1 = Block {
        id: "1".to_string(),
        block_type: "bulletListItem".to_string(),
        content: BlockContent::Inline(vec![text("Item 1")]),
        props: StringMap::new(),
        children: vec![],
    };
    let block2 = Block {
        id: "2".to_string(),
        block_type: "bulletListItem".to_string(),
        content: BlockContent::Inline(vec![text("Item 2")]),
        props: StringMap::new(),
        children: vec![],
    };
    let markdown = blocks_to_markdown_lossy(&[block1, block2]);
    assert_eq!(markdown, "- Item 1\n- Item 2\n");
}

#[test]
fn test_blocks_to_markdown_heading() {
    let mut props = StringMap::new();
    props.insert("level".to_string(), "2".to_string());
    let block = Block {
        id: "h1".to_string(),
        block_type: "heading".to_string(),
        content: BlockContent::Inline(vec![text("Test Heading")]),
        props,
        children: vec![],
    };
    let markdown = blocks_to_markdown_lossy(&[block]);
    assert_eq!(markdown, "## Test Heading\n\n");
}

#[test]
fn test_blocks_to_markdown_code() {
    let mut props = StringMap::new();
    props.insert("language".to_string(), "rust".to_string());
    let block = Block {
        id: "code1".to_string(),
        block_type: "codeBlock".to_string(),
        content: BlockContent::Inline(vec![text("fn main() {\n    println!(\"Hello\");\n}")]),
        props,
        children: vec![],
    };
    let markdown = blocks_to_markdown_lossy(&[block]);
    assert_eq!(markdown, "```rust\nfn main() {\n    println!(\"Hello\");\n}\n```\n\n");
}
