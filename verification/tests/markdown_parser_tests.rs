use blocknote_rs::{try_parse_markdown_to_blocks, BlockContent};

#[test]
fn markdown_parser_test_parse_simple_paragraph() {
    let markdown = "Hello **world**!";
    let blocks = try_parse_markdown_to_blocks(markdown).unwrap();

    assert_eq!(blocks.len(), 1);
    assert_eq!(blocks[0].block_type, "paragraph");
    if let BlockContent::Inline(content) = &blocks[0].content {
        assert_eq!(content.len(), 3);
        assert_eq!(content[0].text, "Hello ");
        assert_eq!(content[1].text, "world");
        assert!(content[1].styles.contains_key("bold"));
        assert_eq!(content[2].text, "!");
    } else {
        panic!("Expected inline content");
    }
}

#[test]
fn markdown_parser_test_parse_code_block() {
    let markdown = "```rust\nfn main() {\n    println!(\"Hello\");\n}\n```";
    let blocks = try_parse_markdown_to_blocks(markdown).unwrap();

    assert_eq!(blocks.len(), 1);
    assert_eq!(blocks[0].block_type, "codeBlock");
    assert_eq!(blocks[0].props.get("language"), Some(&"rust".to_string()));
    if let BlockContent::Inline(content) = &blocks[0].content {
        assert_eq!(
            content[0].text.trim(),
            "fn main() {\n    println!(\"Hello\");\n}"
        );
    } else {
        panic!("Expected inline content");
    }
}

fn texts(c: &BlockContent) -> Vec<String> {
    match c {
        BlockContent::Inline(v) => v.iter().map(|i| i.text.clone()).collect(),
        _ => panic!("Expected inline content"),
    }
}

#[test]
fn test_parse_nested_list() {
    let markdown = "- Item 1\n  - Nested 1\n  - Nested 2\n- Item 2";
    let blocks = try_parse_markdown_to_blocks(markdown).unwrap();

    assert_eq!(blocks.len(), 2);
    assert_eq!(blocks[0].block_type, "bulletListItem");
    assert_eq!(texts(&blocks[0].content), vec!["Item 1".to_string()]);
    assert_eq!(blocks[0].children.len(), 2);
    assert_eq!(blocks[0].children[0].block_type, "bulletListItem");
    assert_eq!(texts(&blocks[0].children[0].content), vec!["Nested 1".to_string()]);
    assert_eq!(texts(&blocks[0].children[1].content), vec!["Nested 2".to_string()]);
    assert_eq!(blocks[1].block_type, "bulletListItem");
    assert_eq!(texts(&blocks[1].content), vec!["Item 2".to_string()]);
    assert!(blocks[1].children.is_empty());
}

#[test]
fn test_parse_mixed_content() {
    let markdown = r#"# Main Title

A paragraph with **bold** and *italic* text.

```python
def hello():
    print("Hello, World!")
```

- List item 1
  - Nested item 1.1
  - Nested item 1.2
- List item 2

Another paragraph with `inline code`."#;

    let blocks = try_parse_markdown_to_blocks(markdown).unwrap();

    assert_eq!(blocks[0].block_type, "heading");
    assert_eq!(blocks[0].props.get("level"), Some(&"1".to_string()));
    if let BlockContent::Inline(content) = &blocks[0].content {
        assert_eq!(content[0].text, "Main Title");
    }

    assert_eq!(blocks[1].block_type, "paragraph");
    if let BlockContent::Inline(content) = &blocks[1].content {
        assert_eq!(content.len(), 5);
        assert_eq!(content[0].text, "A paragraph with ");
        assert_eq!(content[1].text, "bold");
        assert!(content[1].styles.contains_key("bold"));
        assert_eq!(content[2].text, " and ");
        assert_eq!(content[3].text, "italic");
        assert!(content[3].styles.contains_key("italic"));
        assert_eq!(content[4].text, " text.");
    }

    assert_eq!(blocks[2].block_type, "codeBlock");
    assert_eq!(blocks[2].props.get("language"), Some(&"python".to_string()));
    if let BlockContent::Inline(content) = &blocks[2].content {
        assert_eq!(content[0].text.trim(), "def hello():\n    print(\"Hello, World!\")");
    }

    assert_eq!(blocks[3].block_type, "bulletListItem");
    assert_eq!(blocks[3].children.len(), 2);
    if let BlockContent::Inline(content) = &blocks[3].content {
        assert_eq!(content[0].text, "List item 1");
    }

    assert_eq!(blocks[4].block_type, "bulletListItem");
    assert_eq!(texts(&blocks[4].content), vec!["List item 2".to_string()]);

    let last = &blocks[5];
    assert_eq!(last.block_type, "paragraph");
    if let BlockContent::Inline(content) = &last.content {
        assert_eq!(content.len(), 3);
        assert_eq!(content[0].text, "Another paragraph with ");
        assert_eq!(content[1].text, "inline code");
        assert!(content[1].styles.contains_key("code"));
        assert_eq!(content[2].text, ".");
    }
}
