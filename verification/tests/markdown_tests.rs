use vaultdb::frontmatter::extract_frontmatter;
use vaultdb::markdown::{
    chunk_text, extract_tags, extract_wikilinks, markdown_to_plain, parse_markdown,
    plain_text_of_events, MdEvent,
};
use vaultdb::strmap::StrMap;

fn s(x: &str) -> String {
    x.to_string()
}

#[test]
fn frontmatter_is_read_between_fences() {
    let (fm, body) = extract_frontmatter("---\ntitle: Hello\ntags: [a, b]\n---\nBody text");
    assert_eq!(fm.len(), 2);
    assert_eq!(fm.get("title"), Some(&s("Hello")));
    assert_eq!(fm.get("tags"), Some(&s("[a, b]")));
    assert_eq!(body, "\nBody text");
}

#[test]
fn frontmatter_absent_leaves_text() {
    let (fm, body) = extract_frontmatter("Just text\n---\nmore");
    assert_eq!(fm.len(), 0);
    assert_eq!(body, "Just text\n---\nmore");
}

#[test]
fn frontmatter_unclosed_leaves_text() {
    let (fm, body) = extract_frontmatter("---\ntitle: x\nno end");
    assert_eq!(fm.len(), 0);
    assert_eq!(body, "---\ntitle: x\nno end");
}

#[test]
fn frontmatter_later_key_wins_and_values_keep_colons() {
    let (fm, body) = extract_frontmatter("---\n a : 1 \nplain line\nurl: http://x\na: 2\r\n---");
    assert_eq!(fm.len(), 2);
    assert_eq!(fm.get("a"), Some(&s("2")));
    assert_eq!(fm.get("url"), Some(&s("http://x")));
    assert_eq!(fm.get("plain line"), None);
    assert_eq!(body, "");
}

#[test]
fn frontmatter_closing_fence_may_touch_text() {
    let (fm, body) = extract_frontmatter("---k: v---rest");
    assert_eq!(fm.get("k"), Some(&s("v")));
    assert_eq!(body, "rest");
}

#[test]
fn wikilinks_with_aliases_and_unclosed() {
    let links = extract_wikilinks("See [[Note A]] and [[ Note B | alias ]] and [[ ]] then [[Open");
    assert_eq!(links, vec![s("Note A"), s("Note B"), s("Open")]);
}

#[test]
fn wikilinks_single_brackets_are_not_links() {
    assert_eq!(extract_wikilinks("[x] [[y]] [z"), vec![s("y")]);
    assert_eq!(extract_wikilinks("[x[[y]]"), vec![s("y")]);
    assert_eq!(extract_wikilinks("[[[a]]"), vec![s("[a")]);
    assert!(extract_wikilinks("[").is_empty());
    assert!(extract_wikilinks("").is_empty());
}

#[test]
fn tags_from_frontmatter_and_inline_sorted_unique() {
    let mut fm = StrMap::new();
    fm.insert(s("tags"), s("[\"beta\", 'alpha', gamma, , ]"));
    let tags = extract_tags("Text #rust and #go! then #rust again # and #--x-- (#c++)", &fm);
    assert_eq!(tags, vec![s("--x--"), s("alpha"), s("beta"), s("gamma"), s("go"), s("rust")]);
}

#[test]
fn tags_hash_only_and_punctuation_only_words_give_nothing() {
    let fm = StrMap::new();
    assert!(extract_tags("# ## #!! plain", &fm).is_empty());
}

#[test]
fn tags_keep_non_ascii_letters() {
    let fm = StrMap::new();
    assert_eq!(extract_tags("#café. #naïve", &fm), vec![s("café"), s("naïve")]);
}

#[test]
fn plain_text_skips_code_blocks() {
    let evs = vec![
        MdEvent::Text(s("Title")),
        MdEvent::Other,
        MdEvent::SoftBreak,
        MdEvent::CodeBlockStart,
        MdEvent::Text(s("code")),
        MdEvent::HardBreak,
        MdEvent::CodeBlockEnd,
        MdEvent::Text(s("after")),
    ];
    assert_eq!(plain_text_of_events(&evs), "Title \n\nafter");
}

#[test]
fn markdown_to_plain_reads_markdown() {
    let plain = markdown_to_plain("# Title\n\nSome text\n\n```\nlet x = 1;\n```\n\nafter");
    assert_eq!(plain, "Title Some text after");
}

#[test]
fn chunks_overlap() {
    let text = "w0 w1 w2 w3 w4 w5 w6 w7 w8 w9";
    let chunks = chunk_text(text, 4, 1);
    assert_eq!(chunks, vec![s("w0 w1 w2 w3"), s("w3 w4 w5 w6"), s("w6 w7 w8 w9")]);
}

#[test]
fn chunks_last_window_is_short() {
    let chunks = chunk_text("a b c d e", 3, 1);
    assert_eq!(chunks, vec![s("a b c"), s("c d e")]);
    let chunks = chunk_text("a b c d e f", 3, 1);
    assert_eq!(chunks, vec![s("a b c"), s("c d e"), s("e f")]);
}

#[test]
fn chunks_small_text_is_one_chunk() {
    assert_eq!(chunk_text("  a \n b\tc  ", 512, 64), vec![s("a b c")]);
    assert!(chunk_text(" \n\t ", 512, 64).is_empty());
    assert_eq!(chunk_text("x y", 2, 5), vec![s("x y")]);
}

#[test]
fn parse_markdown_reads_a_note() {
    let raw = "---\ntags: [project]\n---\n# My Note\n\nLinks to [[Other]] with #idea.";
    let note = parse_markdown("/vault/dir/My Note.md", raw);
    assert_eq!(note.title, "My Note");
    assert_eq!(note.path, "/vault/dir/My Note.md");
    assert_eq!(note.content, "\n# My Note\n\nLinks to [[Other]] with #idea.");
    assert_eq!(note.links, vec![s("Other")]);
    assert_eq!(note.tags, vec![s("idea"), s("project")]);
    assert_eq!(note.frontmatter.get("tags"), Some(&s("[project]")));
    assert_eq!(note.plain_text, markdown_to_plain(&note.content));
    assert_eq!(note.chunks, chunk_text(&note.plain_text, 512, 64));
    assert_eq!(note.chunks.len(), 1);
    assert!(note.plain_text.starts_with("My Note Links to"));
}

#[test]
fn parse_markdown_title_of_path_without_stem() {
    let note = parse_markdown("/", "x");
    assert_eq!(note.title, "Untitled");
}

#[test]
fn wikilinks_of_joined_texts() {
    let a = "see [[A|alias]] and [x]";
    let b = "[[B]] then [[C";
    let joined = format!("{}{}", a, b);
    let mut both = extract_wikilinks(a);
    both.extend(extract_wikilinks(b));
    assert_eq!(extract_wikilinks(&joined), both);
    assert_eq!(extract_wikilinks(&joined), vec![s("A"), s("B"), s("C")]);
}

#[test]
fn tags_of_joined_texts_are_the_sorted_union() {
    let (fm, _) = extract_frontmatter("---\ntags: [z, a]\n---\n");
    let a = "#beta #alpha";
    let b = "#alpha #gamma";
    let joined = format!("{} {}", a, b);
    let mut union = extract_tags(a, &fm);
    union.extend(extract_tags(b, &fm));
    union.sort();
    union.dedup();
    assert_eq!(extract_tags(&joined, &fm), union);
    assert_eq!(extract_tags(&joined, &fm), vec![s("a"), s("alpha"), s("beta"), s("gamma"), s("z")]);
    let (fm2, _) = extract_frontmatter("---\ntitle: other\ntags: [z, a]\n---\n");
    assert_eq!(extract_tags(a, &fm2), extract_tags(a, &fm));
}
