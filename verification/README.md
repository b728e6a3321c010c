# grafeia_core

The document model of a collaborative typesetting editor, written in Verus:
every function of the library carries a contract that Verus proves.

A document is a tree of sequences. Each sequence is a causal weave of atoms
(each adds or removes one item after another atom), so that sites can edit
concurrently and exchange operations. Items are words, symbols, nested
sequences and embedded objects; words and symbols are shared by their text.

## Layout

- `src/ids.rs`, `src/keys.rs`: sites, ids, logical clocks and the stamped keys
  of words, symbols, sequences, types, objects, fonts and dictionaries.
- `src/content.rs`: words, symbols, types, items and tags.
- `src/weave.rs`: the weave of a sequence: adding atoms, rendering the items,
  walking from one item to the next.
- `src/stamped_map.rs`, `src/name_index.rs`: maps keyed by stamps and by names.
- `src/document.rs`: the shared storage, the operations between sites, and the
  document one site edits (creating words, symbols and sequences, inserting,
  replacing and removing items, moving between tags).
- `src/editor.rs`: cursor movement by grapheme clusters and text editing
  (typing into a word, splitting and joining words).
- `src/chars.rs`: the Unicode facts the text logic rests on
  (`unicode_categories`, `unicode-segmentation`).
- `src/hyphenation.rs`: hyphenation points packed in a word and the hyphenator
  dictionary stored as an `fst` map.
- `src/branches.rs`: the bookkeeping of alternative layouts in the line
  breaker's stream.
- `src/markdown.rs`: reading a Markdown text (`pulldown-cmark`) into a document.
- `src/server.rs`: the decisions of the server that relays operations between
  sites (site ids, answers, who receives an operation).
- `tests/`: tests of the library on concrete values.
- `app/`: what surrounds the library and is not verified: files on disk (the
  hyphenator's map, hyphen lists, Markdown files), the wire format of the
  messages between sites (`serde`, `bincode`), and the floating-point
  measures of the layout.
