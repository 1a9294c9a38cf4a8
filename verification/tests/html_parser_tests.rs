use blocknote_rs::{blocks_to_full_html, try_parse_html_to_blocks, BlockContent};

#[test]
fn html_parser_test_parse_simple_paragraph() {
    let html = r#"<div><p>Hello <strong>world</strong>!</p></div>"#;
    let blocks = try_parse_html_to_blocks(html);

    assert_eq!(blocks.len(), 1);
    match &blocks[0].content {
        BlockContent::Inline(content) => {
            assert_eq!(content.len(), 3);
            assert_eq!(content[0].text, "Hello ");
            assert_eq!(content[1].text, "world");
            assert!(content[1].styles.contains_key("bold"));
            assert_eq!(content[2].text, "!");
        }
        _ => panic!("Expected inline content"),
    }
}

#[test]
fn test_parse_nested_lists() {
    let html = r#"
        <ul>
            <li>Item 1</li>
            <li>
                <ul>
                    <li>Nested 1</li>
                    <li>Nested 2</li>
                </ul>
            </li>
            <li>Item 2</li>
        </ul>"#;

    let blocks = try_parse_html_to_blocks(html);
    assert!(blocks.len() > 1);
    assert_eq!(blocks[0].block_type, "bulletListItem");

    let html_output = blocks_to_full_html(&blocks);
    assert!(html_output.contains("bn-block-group"));
}

#[test]
fn test_parse_table() {
    let html = r#"
        <table data-column-widths="[100,200]">
            <tr>
                <td>Cell 1</td>
                <td>Cell 2</td>
            </tr>
        </table>"#;

    let blocks = try_parse_html_to_blocks(html);
    assert_eq!(blocks.len(), 1);

    match &blocks[0].content {
        BlockContent::Table(table) => {
            let widths: Vec<Option<f64>> = serde_json::from_str(&table.column_widths).unwrap();
            assert_eq!(widths, vec![Some(100.0), Some(200.0)]);
            assert_eq!(table.rows.len(), 1);
            assert_eq!(table.rows[0].cells.len(), 2);
        }
        _ => panic!("Expected table content"),
    }
}

#[test]
fn html_parser_test_parse_code_block() {
    let html = r#"<pre lang="rust"><code>fn main() {
    println!("Hello");
}</code></pre>"#;

    let blocks = try_parse_html_to_blocks(html);
    assert_eq!(blocks.len(), 1);
    assert_eq!(blocks[0].block_type, "codeBlock");
    assert_eq!(blocks[0].props.get("language"), Some(&"rust".to_string()));

    match &blocks[0].content {
        BlockContent::Inline(content) => {
            assert_eq!(
                content[0].text.trim(),
                r#"fn main() {
    println!("Hello");
}"#
            );
        }
        _ => panic!("Expected inline content"),
    }

    let html2 = r#"<pre><code data-language="rust">fn test() {}</code></pre>"#;
    let blocks2 = try_parse_html_to_blocks(html2);
    assert_eq!(blocks2[0].props.get("language"), Some(&"rust".to_string()));

    let html3 = r#"<pre><code class="language-rust">fn test() {}</code></pre>"#;
    let blocks3 = try_parse_html_to_blocks(html3);
    assert_eq!(blocks3[0].props.get("language"), Some(&"rust".to_string()));
}
