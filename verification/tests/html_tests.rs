use blocknote_rs::{
    blocks_to_full_html, blocks_to_html_lossy, Block, BlockContent, InlineContent, StringMap,
    TableContent, TableRow,
};

fn text(t: &str) -> InlineContent {
    InlineContent { text: t.to_string(), styles: StringMap::new() }
}

#[test]
fn test_blocks_to_full_html() {
    let mut styles = StringMap::new();
    styles.insert("bold".to_string(), "true".to_string());

    let block = Block {
        id: "test".to_string(),
        block_type: "paragraph".to_string(),
        content: BlockContent::Inline(vec![InlineContent { text: "Hello".to_string(), styles }]),
        props: StringMap::new(),
        children: vec![],
    };

    let html = blocks_to_full_html(&[block]);
    println!("{}", html);
    assert!(html.contains("bn-block-group"));
    assert!(html.contains("bn-block"));
    assert!(html.contains("bn-block-content"));
    assert!(html.contains("data-style-bold=\"true\""));
    assert!(html.contains("Hello"));
}

#[test]
fn test_blocks_to_html_lossy() {
    let block1 = Block {
        id: "1".to_string(),
        block_type: "bulletListItem".to_string(),
        content: BlockContent::Inline(vec![text("Item 1")]),
        props: StringMap::new(),
        children: vec![],
    };
    let block2 = Block {
        id: "2".to_string(),
        block_type: "bulletListItem".to_string(),
        content: BlockContent::Inline(vec![text("Item 2")]),
        props: StringMap::new(),
        children: vec![],
    };
    let html = blocks_to_html_lossy(&[block1, block2]);
    println!("{}", html);
    assert!(html.contains("<ul>"));
    assert!(html.contains("<li>"));
    assert!(html.contains("Item 1"));
    assert!(html.contains("Item 2"));
}

#[test]
fn test_table_block_html() {
    let widths: Vec<Option<f64>> = vec![Some(100.0), Some(200.0)];
    let table = Block {
        id: "table1".to_string(),
        block_type: "table".to_string(),
        content: BlockContent::Table(TableContent {
            content_type: "default".to_string(),
            column_widths: serde_json::to_string(&widths).unwrap(),
            rows: vec![TableRow { cells: vec![vec![text("Cell 1")], vec![text("Cell 2")]] }],
        }),
        props: StringMap::new(),
        children: vec![],
    };
    let html = blocks_to_full_html(&[table]);
    println!("{}", html);
    assert!(html.contains("<table"));
    assert!(html.contains("bn-table"));
    assert!(html.contains("data-column-widths"));
    assert!(html.contains("Cell 1"));
    assert!(html.contains("Cell 2"));
}

#[test]
fn full_html_of_a_heading_is_exact() {
    let mut props = StringMap::new();
    props.insert("level".to_string(), "1".to_string());
    let block = Block {
        id: "h".to_string(),
        block_type: "heading".to_string(),
        content: BlockContent::Inline(vec![text("A & <b>")]),
        props,
        children: vec![],
    };
    assert_eq!(
        blocks_to_full_html(&[block]),
        "<html><head></head><body><div><div class=\"bn-block-group\"><div class=\"bn-block-container\"><div class=\"bn-block\" data-prop-level=\"1\" data-type=\"heading\"><div class=\"bn-block-content\"><span>A &amp; &lt;b&gt;</span></div></div></div></div></div></body></html>"
    );
}

#[test]
fn lossy_html_groups_consecutive_items_into_one_list() {
    let item = |id: &str, t: &str| Block {
        id: id.to_string(),
        block_type: "bulletListItem".to_string(),
        content: BlockContent::Inline(vec![text(t)]),
        props: StringMap::new(),
        children: vec![],
    };
    let para = Block {
        id: "p".to_string(),
        block_type: "paragraph".to_string(),
        content: BlockContent::Inline(vec![text("P")]),
        props: StringMap::new(),
        children: vec![],
    };
    assert_eq!(
        blocks_to_html_lossy(&[para, item("1", "I1"), item("2", "I2")]),
        "<html><head></head><body><div><div data-type=\"paragraph\"><div class=\"bn-block-content\"><span>P</span></div></div><ul><li><div class=\"bn-block-content\"><span>I1</span></div></li><li><div class=\"bn-block-content\"><span>I2</span></div></li></ul></div></body></html>"
    );
}
