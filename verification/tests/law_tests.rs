use blocknote_rs::dom::{DomNode, ElementNode};
use blocknote_rs::html_parser::parse_document_to_blocks;
use blocknote_rs::ids::IdGen;
use blocknote_rs::{
    assert_html_equivalent, blocks_to_full_html, blocks_to_markdown_lossy, create_test_document,
    html_equivalent, try_parse_html_to_blocks, try_parse_markdown_to_blocks, Block, BlockContent,
    InlineContent, StringMap, TableContent, TableRow,
};

fn text(t: &str) -> InlineContent {
    InlineContent { text: t.to_string(), styles: StringMap::new() }
}

fn block(id: &str, block_type: &str, pieces: Vec<InlineContent>, props: &[(&str, &str)]) -> Block {
    let mut m = StringMap::new();
    for (k, v) in props {
        m.insert(k.to_string(), v.to_string());
    }
    Block {
        id: id.to_string(),
        block_type: block_type.to_string(),
        content: BlockContent::Inline(pieces),
        props: m,
        children: vec![],
    }
}

fn inline_texts(b: &Block) -> Vec<String> {
    match &b.content {
        BlockContent::Inline(c) => c.iter().map(|i| i.text.clone()).collect(),
        _ => panic!("expected inline content"),
    }
}

fn element(name: &str, attrs: &[(&str, &str)], children: Vec<DomNode>) -> DomNode {
    let mut m = StringMap::new();
    for (k, v) in attrs {
        m.insert(k.to_string(), v.to_string());
    }
    DomNode::Element(ElementNode { name: name.to_string(), attrs: m, children })
}

#[test]
fn full_html_reads_back_flat_blocks() {
    let blocks = vec![
        block("a", "heading", vec![text("Title")], &[("level", "2")]),
        block("b", "paragraph", vec![text("Hello "), text("world & <you>")], &[("textalign", "left")]),
        block("c", "codeBlock", vec![text("let x = 1;")], &[("language", "rust")]),
    ];
    let html = blocks_to_full_html(&blocks);
    let read = try_parse_html_to_blocks(&html);
    assert_eq!(read.len(), blocks.len());
    for (r, b) in read.iter().zip(blocks.iter()) {
        assert!(r.id.starts_with("block_"));
        assert!(r.id["block_".len()..].chars().all(|c| c.is_ascii_digit()));
        assert_eq!(r.block_type, b.block_type);
        assert_eq!(inline_texts(r), inline_texts(b));
        assert_eq!(r.props.len(), b.props.len());
        for i in 0..b.props.len() {
            assert_eq!(r.props.get(b.props.key_at(i)), Some(b.props.value_at(i)));
        }
        assert!(r.children.is_empty());
    }
}

#[test]
fn full_html_keeps_children_styles_and_tables() {
    let mut styles = StringMap::new();
    styles.insert("bold".to_string(), "true".to_string());
    let mut parent = block("p", "bulletListItem", vec![text("Parent")], &[]);
    let mut child = block("c", "bulletListItem", vec![text("Child")], &[]);
    child.children = vec![block("g", "paragraph", vec![text("Grandchild")], &[])];
    parent.children = vec![child];
    let styled = block("s", "paragraph", vec![InlineContent { text: "Bold".to_string(), styles }], &[]);
    let mut cell_styles = StringMap::new();
    cell_styles.insert("italic".to_string(), "true".to_string());
    let table = Block {
        id: "t".to_string(),
        block_type: "table".to_string(),
        content: BlockContent::Table(TableContent {
            content_type: "tableContent".to_string(),
            column_widths: "[100,null]".to_string(),
            rows: vec![TableRow {
                cells: vec![vec![text("A")], vec![InlineContent { text: "B".to_string(), styles: cell_styles }]],
            }],
        }),
        props: StringMap::new(),
        children: vec![],
    };
    let empty = Block {
        id: "e".to_string(),
        block_type: "image".to_string(),
        content: BlockContent::Empty,
        props: StringMap::new(),
        children: vec![],
    };
    let html = blocks_to_full_html(&[parent, styled, table, empty]);
    let read = try_parse_html_to_blocks(&html);
    assert_eq!(read.len(), 4);
    assert_eq!(inline_texts(&read[0]), vec!["Parent".to_string()]);
    assert_eq!(read[0].children.len(), 1);
    assert_eq!(inline_texts(&read[0].children[0]), vec!["Child".to_string()]);
    assert_eq!(read[0].children[0].children.len(), 1);
    assert_eq!(inline_texts(&read[0].children[0].children[0]), vec!["Grandchild".to_string()]);
    match &read[1].content {
        BlockContent::Inline(c) => {
            assert_eq!(c.len(), 1);
            assert_eq!(c[0].styles.len(), 1);
            assert_eq!(c[0].styles.get("bold"), Some(&"true".to_string()));
        }
        _ => panic!("expected inline content"),
    }
    match &read[2].content {
        BlockContent::Table(t) => {
            assert_eq!(t.content_type, "tableContent");
            assert_eq!(t.column_widths, "[100,null]");
            assert_eq!(t.rows.len(), 1);
            assert_eq!(t.rows[0].cells.len(), 2);
            assert_eq!(t.rows[0].cells[0][0].text, "A");
            assert_eq!(t.rows[0].cells[1][0].text, "B");
            assert_eq!(t.rows[0].cells[1][0].styles.get("italic"), Some(&"true".to_string()));
        }
        _ => panic!("expected a table"),
    }
    assert_eq!(read[3].block_type, "image");
    assert!(matches!(read[3].content, BlockContent::Empty));
}

#[test]
fn a_div_without_block_children_is_a_paragraph() {
    let blocks = try_parse_html_to_blocks("<div>x</div>");
    assert_eq!(blocks.len(), 1);
    assert_eq!(blocks[0].block_type, "paragraph");
    assert_eq!(inline_texts(&blocks[0]), vec!["x".to_string()]);
    let nested = try_parse_html_to_blocks("<div><p>a</p><p>b</p></div>");
    assert_eq!(nested.len(), 2);
}

#[test]
fn data_style_attributes_set_styles() {
    let blocks = try_parse_html_to_blocks(r#"<p><span data-style-textColor="red" data-style-bold="true">x</span></p>"#);
    match &blocks[0].content {
        BlockContent::Inline(c) => {
            assert_eq!(c[0].styles.get("bold"), Some(&"true".to_string()));
            assert_eq!(c[0].styles.get("textcolor"), Some(&"red".to_string()));
        }
        _ => panic!("expected inline content"),
    }
}

#[test]
fn markdown_of_blocks_is_markdown_of_each_block_in_turn() {
    let first = || vec![block("1", "heading", vec![text("Top")], &[("level", "1")])];
    let rest = || {
        vec![
            block("2", "paragraph", vec![text("Body")], &[]),
            block("3", "bulletListItem", vec![text("Item")], &[]),
        ]
    };
    let mut both = first();
    both.extend(rest());
    let whole = blocks_to_markdown_lossy(&both);
    let parts = format!("{}{}", blocks_to_markdown_lossy(&first()), blocks_to_markdown_lossy(&rest()));
    assert_eq!(whole, parts);
    assert_eq!(whole, "# Top\n\nBody\n\n- Item\n");
}

#[test]
fn inline_styles_come_from_elements_and_data_style() {
    let html = r#"<p><b>bold</b><em>italic</em><u>under</u><code>mono</code><span data-style="bold italic">both</span>plain</p>"#;
    let blocks = try_parse_html_to_blocks(html);
    assert_eq!(blocks.len(), 1);
    match &blocks[0].content {
        BlockContent::Inline(c) => {
            assert_eq!(c.len(), 6);
            assert_eq!(c[0].styles.get("bold"), Some(&"true".to_string()));
            assert_eq!(c[1].styles.get("italic"), Some(&"true".to_string()));
            assert_eq!(c[2].styles.get("underline"), Some(&"true".to_string()));
            assert_eq!(c[3].styles.get("code"), Some(&"true".to_string()));
            assert_eq!(c[4].styles.get("bold"), Some(&"true".to_string()));
            assert_eq!(c[4].styles.get("italic"), Some(&"true".to_string()));
            assert_eq!(c[5].styles.len(), 0);
            assert_eq!(c[5].text, "plain");
        }
        _ => panic!("expected inline content"),
    }
}

#[test]
fn headings_get_their_level() {
    let blocks = try_parse_html_to_blocks("<h3>Three</h3><p>text</p>");
    assert_eq!(blocks.len(), 2);
    assert_eq!(blocks[0].block_type, "heading");
    assert_eq!(blocks[0].props.get("level"), Some(&"3".to_string()));
    assert_eq!(blocks[1].block_type, "paragraph");
    assert_eq!(blocks[1].props.len(), 0);
}

#[test]
fn ordered_lists_give_numbered_items_with_nested_children() {
    let blocks = try_parse_html_to_blocks("<ol><li>One<ul><li>Inner</li></ul></li><li>Two</li></ol>");
    assert_eq!(blocks.len(), 2);
    assert_eq!(blocks[0].block_type, "numberedListItem");
    assert_eq!(inline_texts(&blocks[0]), vec!["One".to_string()]);
    assert_eq!(blocks[0].children.len(), 1);
    assert_eq!(blocks[0].children[0].block_type, "bulletListItem");
    assert_eq!(inline_texts(&blocks[0].children[0]), vec!["Inner".to_string()]);
    assert_eq!(blocks[1].block_type, "numberedListItem");
}

#[test]
fn table_widths_that_are_not_a_list_of_numbers_are_dropped() {
    let good = try_parse_html_to_blocks(r#"<table data-column-widths="[1,null,2.5]"><tr><td>a</td></tr></table>"#);
    let bad = try_parse_html_to_blocks(r#"<table data-column-widths="[1,"><tr><td>a</td></tr></table>"#);
    match (&good[0].content, &bad[0].content) {
        (BlockContent::Table(g), BlockContent::Table(b)) => {
            assert_eq!(g.column_widths, "[1,null,2.5]");
            assert_eq!(b.column_widths, "[]");
            assert_eq!(g.content_type, "default");
        }
        _ => panic!("expected tables"),
    }
}

#[test]
fn code_language_falls_back_to_fence_then_text() {
    let fenced = try_parse_html_to_blocks("<pre><code>```python\nprint(1)\n```</code></pre>");
    assert_eq!(fenced[0].props.get("language"), Some(&"python".to_string()));
    assert_eq!(inline_texts(&fenced[0]), vec!["```python\nprint(1)".to_string()]);
    let plain = try_parse_html_to_blocks("<pre><code>x = 1</code></pre>");
    assert_eq!(plain[0].props.get("language"), Some(&"text".to_string()));
    let typed = try_parse_html_to_blocks(r#"<pre><code data-type="snippet">y</code></pre>"#);
    assert_eq!(typed[0].block_type, "snippet");
    let no_code = try_parse_html_to_blocks("<pre>just text</pre>");
    assert_eq!(no_code[0].block_type, "paragraph");
    assert_eq!(inline_texts(&no_code[0]), vec!["just text".to_string()]);
}

#[test]
fn upper_case_list_names_are_read_as_lists() {
    let item = element("li", &[], vec![DomNode::Text("Shout".to_string())]);
    let list = element("UL", &[], vec![item]);
    let body = element("body", &[], vec![list]);
    let doc = DomNode::Other(vec![element("html", &[], vec![body])]);
    let mut gen = IdGen::new();
    let blocks = parse_document_to_blocks(&doc, &mut gen);
    assert_eq!(blocks.len(), 1);
    assert_eq!(blocks[0].block_type, "bulletListItem");
    assert_eq!(inline_texts(&blocks[0]), vec!["Shout".to_string()]);
}

#[test]
fn markdown_headings_and_lists() {
    let blocks = try_parse_markdown_to_blocks("## Title\n\nSome *text*.\n\n1. one\n2. two\n   - inner").unwrap();
    assert_eq!(blocks.len(), 4);
    assert_eq!(blocks[0].block_type, "heading");
    assert_eq!(blocks[0].props.get("level"), Some(&"2".to_string()));
    assert_eq!(inline_texts(&blocks[0]), vec!["Title".to_string()]);
    assert_eq!(blocks[1].block_type, "paragraph");
    assert_eq!(inline_texts(&blocks[1]), vec!["Some ".to_string(), "text".to_string(), ".".to_string()]);
    assert_eq!(blocks[2].block_type, "bulletListItem");
    assert_eq!(inline_texts(&blocks[2]), vec!["one".to_string()]);
    assert_eq!(blocks[3].block_type, "bulletListItem");
    assert_eq!(inline_texts(&blocks[3]), vec!["two".to_string()]);
    assert_eq!(blocks[3].children.len(), 1);
    assert_eq!(inline_texts(&blocks[3].children[0]), vec!["inner".to_string()]);
    let empty = try_parse_markdown_to_blocks("").unwrap();
    assert!(empty.is_empty());
}

#[test]
fn html_equivalence_ignores_white_space_between_tags() {
    assert!(html_equivalent("<p>a   b</p>\n", "  <p>a b</p>"));
    assert!(html_equivalent("<div><p>x</p></div>", "<div>\n  <p>x</p>\n</div>"));
    assert!(!html_equivalent("<p>ab</p>", "<p>a b</p>"));
    assert!(!html_equivalent("<p>x</p>", "<div>x</div>"));
    assert_html_equivalent("<ul>\n  <li>one</li>\n</ul>", "<ul><li>one</li></ul>");
}

#[test]
fn the_test_document_has_every_kind_of_block() {
    let doc = create_test_document();
    assert_eq!(doc.len(), 5);
    assert_eq!(doc[0].block_type, "heading");
    assert_eq!(doc[3].children.len(), 1);
    match &doc[4].content {
        BlockContent::Table(t) => {
            let widths: Vec<Option<f64>> = serde_json::from_str(&t.column_widths).unwrap();
            assert_eq!(widths, vec![Some(100.0), Some(200.0)]);
            assert_eq!(t.rows.len(), 2);
        }
        _ => panic!("expected a table"),
    }
}

#[test]
fn line_breaks_and_images_add_no_text() {
    let blocks = try_parse_html_to_blocks(r#"<p>a<br>b<img src="x.png">c</p>"#);
    assert_eq!(blocks.len(), 1);
    assert_eq!(inline_texts(&blocks[0]), vec!["a".to_string(), "b".to_string(), "c".to_string()]);
}

#[test]
fn comments_and_white_space_between_blocks_give_nothing() {
    let blocks = try_parse_html_to_blocks("<!-- note -->\n  <p>x</p>\n\n");
    assert_eq!(blocks.len(), 1);
    assert_eq!(inline_texts(&blocks[0]), vec!["x".to_string()]);
}

#[test]
fn list_items_keep_their_data_type() {
    let blocks = try_parse_html_to_blocks(r#"<ul><li data-type="checkListItem">done</li></ul>"#);
    assert_eq!(blocks.len(), 1);
    assert_eq!(blocks[0].block_type, "checkListItem");
}

#[test]
fn loose_text_before_a_nested_list_is_the_item_content() {
    let blocks = try_parse_html_to_blocks("<ul><li>loose <ul><li>n</li></ul></li></ul>");
    assert_eq!(blocks.len(), 1);
    assert_eq!(inline_texts(&blocks[0]), vec!["loose ".to_string()]);
    assert_eq!(blocks[0].children.len(), 1);
    assert_eq!(inline_texts(&blocks[0].children[0]), vec!["n".to_string()]);
}

#[test]
fn a_list_keeps_every_item_in_order() {
    let blocks = try_parse_html_to_blocks("<ul><li>a</li><li>b<ul><li>c</li></ul></li><li>d</li></ul>");
    assert_eq!(blocks.len(), 3);
    assert_eq!(inline_texts(&blocks[0]), vec!["a".to_string()]);
    assert_eq!(inline_texts(&blocks[1]), vec!["b".to_string()]);
    assert_eq!(blocks[1].children.len(), 1);
    assert_eq!(inline_texts(&blocks[2]), vec!["d".to_string()]);
}

#[test]
fn children_of_a_list_item_are_list_items() {
    let blocks = try_parse_html_to_blocks(r#"<ul><li>a<ul><li data-type="paragraph">x</li><li>y</li></ul></li></ul>"#);
    assert_eq!(blocks.len(), 1);
    assert_eq!(blocks[0].children.len(), 1);
    assert_eq!(blocks[0].children[0].block_type, "bulletListItem");
    assert_eq!(inline_texts(&blocks[0].children[0]), vec!["y".to_string()]);
}

#[test]
fn a_tree_without_list_items_is_left_as_it_is() {
    let tree = element(
        "div",
        &[("class", "x")],
        vec![element("p", &[], vec![DomNode::Text("a".to_string())]), element("ul", &[], vec![])],
    );
    let before = format!("{:?}", tree);
    let after = blocknote_rs::nested_lists::process_nested_lists(&tree);
    assert_eq!(format!("{:?}", after), before);
    let with_item = element("ul", &[], vec![element("li", &[], vec![DomNode::Text("i".to_string())])]);
    let changed = blocknote_rs::nested_lists::process_nested_lists(&with_item);
    assert_ne!(format!("{:?}", changed), format!("{:?}", with_item));
}

#[test]
fn full_html_of_no_blocks_reads_back_as_no_blocks() {
    let html = blocks_to_full_html(&[]);
    assert!(try_parse_html_to_blocks(&html).is_empty());
}

#[test]
fn a_block_without_content_keeps_its_children() {
    let parent = Block {
        id: "e".to_string(),
        block_type: "column".to_string(),
        content: BlockContent::Empty,
        props: StringMap::new(),
        children: vec![block("c", "paragraph", vec![text("inside")], &[])],
    };
    let read = try_parse_html_to_blocks(&blocks_to_full_html(&[parent]));
    assert_eq!(read.len(), 1);
    assert_eq!(read[0].block_type, "column");
    assert!(matches!(read[0].content, BlockContent::Empty));
    assert_eq!(read[0].children.len(), 1);
    assert_eq!(inline_texts(&read[0].children[0]), vec!["inside".to_string()]);
}

#[test]
fn item_children_come_from_lists_and_block_groups() {
    let li = |t: &str| element("li", &[], vec![DomNode::Text(t.to_string())]);
    let group = element("div", &[("data-node-type", "blockGroup")], vec![element("ul", &[], vec![li("c")])]);
    let item = element(
        "li",
        &[],
        vec![DomNode::Text("a".to_string()), element("ol", &[], vec![li("b"), element("p", &[], vec![])]), group],
    );
    let chain: Vec<&DomNode> = Vec::new();
    let mut gen = IdGen::new();
    let block = blocknote_rs::list_items::parse_list_item(&item, false, &chain, &mut gen);
    assert_eq!(block.block_type, "bulletListItem");
    assert_eq!(block.children.len(), 2);
    assert_eq!(block.children[0].block_type, "numberedListItem");
    assert_eq!(inline_texts(&block.children[0]), vec!["b".to_string()]);
    assert_eq!(block.children[1].block_type, "bulletListItem");
    assert_eq!(inline_texts(&block.children[1]), vec!["c".to_string()]);
}
