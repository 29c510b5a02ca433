//! The verified core of a knowledge base built from a folder of Markdown
//! notes: reading notes (front matter, wikilinks, tags, plain text, chunks),
//! the link layer of the note graph, the registry of vaults and the rules of
//! its file operations, the file tree, and the watcher's debouncing.
pub mod text;
pub mod strmap;
pub mod frontmatter;
pub mod paths;
pub mod markdown;
pub mod json;
pub mod graph;
pub mod graph_laws;
pub mod vault;
pub mod tree;
pub mod watcher;
pub mod embeddings;
