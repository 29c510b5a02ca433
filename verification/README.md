# vaultdb

The back end of a desktop knowledge base that imports a folder of Markdown
notes (an Obsidian vault), embeds their text with a local Ollama model, keeps
the vectors in Qdrant, and shows the notes as a graph of links, tags and
semantic similarity.

## Layout

- `src/` — the library, verified with Verus:
  - `text.rs` — characters, trims, splits, words and string order;
  - `strmap.rs` — a string-keyed map with distinct keys (front matter, the
    vault registry);
  - `frontmatter.rs`, `markdown.rs` — reading a note: front matter,
    wikilinks, tags, plain text and the word chunks that are embedded;
  - `graph.rs`, `graph_laws.rs` — the link layer of the graph (link,
    backlink and tag edges, ghost nodes) and the laws it keeps;
  - `vault.rs` — the vault registry and the decisions of the file
    operations (names, paths kept inside the vault, stored payloads,
    batches, chunk order);
  - `tree.rs` — the order of a vault's file tree;
  - `watcher.rs` — the debouncing of file changes, as a state machine;
  - `paths.rs`, `json.rs`, `embeddings.rs` — the calls into `std::path`,
    `serde_json` and the embedding service's addresses.
- `app/` — the I/O around the library: the file system, Qdrant, the HTTP
  calls to Ollama, the file watcher's thread, the serialisable copies of the
  library's types, and the commands the front end invokes.
- `tests/` — tests of the library on concrete values.
