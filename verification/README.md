# sorex

A full-text search index with a verified binary format, written in Verus.

The library (`src/`) builds suffix arrays (SA-IS) and suffix-array search
indexes, encodes and decodes every section of the `.sorex` file (varints,
vocabulary, suffix array, posting lists with skip lists, section table,
document metadata, the Levenshtein DFA) and the PFOR-compressed posting
format, loads files whole or section by section, ranks results, chooses
index modes, prepares documents for an index build, tokenizes texts into
the vocabulary and inverted index and assembles them into a file, searches
an index through its suffix array, its inverted index or three tiers
(exact words, words that hold the query, words within two edits), reports
what a file holds section by section, and renders the terminal display. Each public function states its result in its
`ensures`; the round trips and the other properties that span functions are
public proof functions named `lemma_*`.

Layout:

- `src/binary/` - the file format: header and footer, section codecs,
  posting lists and skip lists, the whole-file layer, loading (whole and
  incremental), and the PFOR posting format
- `src/sais.rs`, `src/index.rs`, `src/contracts.rs` - suffix arrays and the
  search index with its checks
- `src/levenshtein.rs`, `src/levenshtein_dfa.rs`, `src/hybrid.rs` - edit
  distance, the parametric Levenshtein automaton, vocabulary lookups
- `src/fst_index.rs` - tokenizing, the sorted vocabulary, the inverted
  index, and assembling a built index into a file
- `src/search.rs` - query parts matched in the suffix array, documents
  kept when every part finds them, the index modes, the search tiers
- `src/inspect.rs` - headers of any version, raw and file sizes per
  section, the Brotli size of a file
- `src/ranking.rs`, `src/scoring.rs`, `src/inverted.rs`, `src/builder.rs`,
  `src/manifest.rs` - ranking, field types, index mode choice, build inputs
- `src/display.rs`, `src/script.rs`, `src/script_source.rs`,
  `src/docs_compression.rs` - terminal output, script text, compact docs
- `app/` - the command-line program (`inspect`)
- `tests/` - tests of the library
