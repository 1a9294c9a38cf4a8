# blocknote_rs

Server-side conversion of BlockNote documents, verified with Verus.

A BlockNote document is a list of `Block`s: each has an id, a type, inline
or table content, string properties and child blocks. The library

- writes blocks as full BlockNote HTML (`blocks_to_full_html`), as simpler
  HTML (`blocks_to_html_lossy`) and as Markdown (`blocks_to_markdown_lossy`);
- reads HTML into blocks (`try_parse_html_to_blocks`) and Markdown into
  blocks (`try_parse_markdown_to_blocks`, through comrak's HTML).

Every function of `src/` carries a contract that states its result over
plain mathematical values (views), and Verus proves each body against it.
HTML is parsed and written by kuchiki/html5ever, Markdown is rendered by
comrak, and JSON is read by serde_json; these calls sit behind small trusted
wrappers whose contracts name what the outside code returns.

## What is proved besides the contracts

- Full HTML reads back without loss (`round_trip::lemma_full_html_reads_back`):
  the tree that `blocks_to_full_html` writes, read again, gives every block
  with its type, content (styles and tables included), properties and
  children, at every depth; only the ids are new. Pieces of text that are
  only white space are dropped, and the HTML parser lower-cases attribute
  names, so mixed-case property and style names come back in lower case.
- A list gives every item in order when the ids drawn are new
  (`html_parser::lemma_list_gives_every_item`); the children of a list item
  are the list items of its nested lists and block groups
  (`list_items::lemma_item_children`), all of a list item type
  (`list_items::lemma_item_children_are_list_items`).
- Inline styles from elements and `data-style` are kept
  (`inline_parse::lemma_ancestor_style_kept`).
- Markdown of blocks is the Markdown of each block in turn
  (`markdown::lemma_markdown_of_concat`).
- Rearranging lists leaves a tree without list items as it is, and its
  budget never runs short (`nested_lists`).

## Layout

- `src/blocks.rs` — the document types and their views.
- `src/string_map.rs` — the string map of properties and styles.
- `src/text.rs` — string operations (trimming, searching, numbers).
- `src/dom.rs`, `src/dom_query.rs` — an owned HTML tree, its walk as
  events, selectors, and text.
- `src/html_io.rs` — parsing and serializing HTML with kuchiki.
- `src/html.rs` — the HTML writers.
- `src/markdown.rs` — the Markdown writer.
- `src/nested_lists.rs` — rearranging list items before reading.
- `src/inline_parse.rs`, `src/list_items.rs`, `src/code_lang.rs`,
  `src/html_parser.rs` — reading HTML into blocks.
- `src/markdown_parser.rs` — reading Markdown into blocks.
- `src/ids.rs` — block ids from the clock.
- `src/round_trip.rs` — reading the full HTML back.
- `src/test_utils.rs` — a sample document and HTML comparison.
- `app/lib.rs` — serde-serializable copies of the types, with conversions.
- `tests/` — the tests.
