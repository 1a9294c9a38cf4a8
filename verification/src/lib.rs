pub mod blocks;
pub mod code_lang;
pub mod dom;
pub mod dom_query;
pub mod html;
pub mod html_io;
pub mod html_parser;
pub mod ids;
pub mod inline_parse;
pub mod list_items;
pub mod markdown;
pub mod markdown_parser;
pub mod nested_lists;

pub mod round_trip;
pub mod string_map;
pub mod test_utils;
pub mod text;

pub use blocks::{
    Block, BlockContent, BlockIdentifier, BlockNoteDOMElement, ContentType, InlineContent,
    PartialBlock, TableContent, TableRow,
};
pub use string_map::StringMap;
pub use markdown::blocks_to_markdown_lossy;
pub use test_utils::{assert_html_equivalent, create_test_document, html_equivalent};
pub use html::{blocks_to_full_html, blocks_to_html_lossy, try_blocks_to_full_html, try_blocks_to_html_lossy};
pub use html_parser::try_parse_html_to_blocks;
pub use markdown_parser::try_parse_markdown_to_blocks;
