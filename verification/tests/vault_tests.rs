use vaultdb::markdown::parse_markdown;
use vaultdb::graph::{build_link_graph, payload_str, PointPayload};
use vaultdb::strmap::StrMap;
use vaultdb::vault::{
    batch_ranges, check_folder_deletable, check_note_inside, chunk_order, chunk_payloads,
    collection_name, entries_matching, Ingestion, new_note_content, note_file_name, plan_new_folder, plan_new_note,
    plan_new_vault, plan_rename, sanitize_name, vault_not_found, VaultInfo, VaultRegistry,
};

fn s(x: &str) -> String {
    x.to_string()
}

fn info(name: &str, path: &str, n: usize) -> VaultInfo {
    VaultInfo { name: s(name), source_path: s(path), note_count: n }
}

#[test]
fn names_and_messages() {
    assert_eq!(collection_name("notes"), "vault_notes");
    assert_eq!(vault_not_found("x"), "Vault 'x' not found");
    assert_eq!(sanitize_name("  a/b\\c  "), "abc");
    assert_eq!(sanitize_name(" / "), "");
    assert_eq!(note_file_name("x"), "x.md");
    assert_eq!(note_file_name("x.md"), "x.md");
    assert_eq!(note_file_name("x.m"), "x.m.md");
    assert_eq!(new_note_content("a.md.md"), "# a\n");
    assert_eq!(new_note_content("plan"), "# plan\n");
}

#[test]
fn new_note_plan_inside_vault() {
    let p = plan_new_note("/v", "/v/sub", " my/note ").unwrap();
    assert_eq!(p.path, "/v/sub/mynote.md");
    assert_eq!(p.content, "# mynote\n");
}

#[test]
fn new_note_plan_outside_vault() {
    assert_eq!(
        plan_new_note("/vault", "/vault2", "x").unwrap_err(),
        "Path traversal denied: directory is outside the vault"
    );
}

#[test]
fn new_folder_plans() {
    assert_eq!(plan_new_folder("/v", "/v", "new/dir").unwrap(), "/v/newdir");
    assert_eq!(plan_new_folder("/v", "/v", " / ").unwrap_err(), "Folder name cannot be empty");
    assert_eq!(
        plan_new_folder("/v", "/w", "x").unwrap_err(),
        "Path traversal denied: directory is outside the vault"
    );
}

#[test]
fn folder_deletion_checks() {
    assert!(check_folder_deletable("/v", "/v/sub").is_ok());
    assert_eq!(
        check_folder_deletable("/v", "/v").unwrap_err(),
        "Cannot delete vault root or paths outside the vault"
    );
    assert!(check_folder_deletable("/v", "/w/sub").is_err());
    assert!(check_note_inside("/v", "/v/a.md").is_ok());
    assert_eq!(
        check_note_inside("/v", "/x/a.md").unwrap_err(),
        "Path traversal denied: note is outside the vault"
    );
}

#[test]
fn new_vault_plans() {
    assert_eq!(plan_new_vault("  My Vault ", "/home/u").unwrap(), info("My Vault", "/home/u/My Vault", 0));
    assert_eq!(plan_new_vault(" \\ ", "/home/u").unwrap_err(), "Vault name cannot be empty");
}

#[test]
fn rename_plans() {
    let p = plan_rename("/v", "/v/a.md", " b.md ").unwrap();
    assert_eq!(p.new_path, "/v/b.md");
    assert_eq!(p.name, "b.md");
    assert_eq!(plan_rename("/v", "/w/a.md", "b").unwrap_err(), "Path traversal denied");
    assert_eq!(plan_rename("/v", "/v/a.md", "//").unwrap_err(), "Name cannot be empty");
    assert_eq!(plan_rename("/", "/", "b").unwrap_err(), "Cannot get parent directory");
}

#[test]
fn registry_lookup_list_and_counts() {
    let mut reg: VaultRegistry = StrMap::new();
    reg.insert(s("a"), info("a", "/a", 2));
    reg.insert(s("b"), info("b", "/b", 0));
    assert_eq!(reg.lookup("a").unwrap(), &info("a", "/a", 2));
    assert_eq!(reg.lookup("zz").unwrap_err(), "Vault 'zz' not found");
    assert_eq!(reg.list_vaults(), vec![info("a", "/a", 2), info("b", "/b", 0)]);
    assert!(reg.increment_note_count("a"));
    assert_eq!(reg.lookup("a").unwrap().note_count, 3);
    assert!(reg.decrement_note_count("b"));
    assert_eq!(reg.lookup("b").unwrap().note_count, 0);
    assert!(!reg.increment_note_count("c"));
    reg.insert(s("a"), info("a", "/new", 9));
    assert_eq!(reg.len(), 2);
    assert_eq!(reg.lookup("a").unwrap(), &info("a", "/new", 9));
    assert_eq!(reg.remove("a"), Some(info("a", "/new", 9)));
    assert_eq!(reg.remove("a"), None);
    assert!(reg.lookup("a").is_err());
    assert_eq!(reg.list_vaults(), vec![info("b", "/b", 0)]);
}

#[test]
fn payloads_carry_links_and_tags_as_json() {
    let mut words = String::new();
    for i in 0..600 {
        words.push_str(&format!("w{} ", i));
    }
    let raw = format!("---\ntags: [x]\n---\nSee [[Other]] #y\n\n{}", words);
    let note = parse_markdown("/v/N.md", &raw);
    assert_eq!(note.chunks.len(), 2);
    let ps = chunk_payloads(&note, 5);
    assert_eq!(ps.len(), 2);
    assert_eq!(ps[1].chunk_index, 1);
    assert_eq!(ps[1].chunk, note.chunks[1]);
    assert_eq!(ps[0].title, "N");
    assert_eq!(ps[0].links_json, "[\"Other\"]");
    assert_eq!(ps[0].tags_json, "[\"x\",\"y\"]");
    assert_eq!(chunk_payloads(&note, 1).len(), 1);
    let points: Vec<PointPayload> = ps
        .iter()
        .map(|p| PointPayload {
            title: Some(p.title.clone()),
            path: Some(p.path.clone()),
            tags: Some(p.tags_json.clone()),
            links: Some(p.links_json.clone()),
        })
        .collect();
    let (nodes, _) = build_link_graph(&points);
    assert_eq!(nodes[0].tags, note.tags);
    assert_eq!(nodes[0].link_count, note.links.len());
}

#[test]
fn batches_of_a_hundred() {
    assert_eq!(batch_ranges(250, 100), vec![(0, 100), (100, 200), (200, 250)]);
    assert_eq!(batch_ranges(100, 100), vec![(0, 100)]);
    assert!(batch_ranges(0, 100).is_empty());
}

#[test]
fn chunks_ordered_by_index_stably() {
    assert_eq!(chunk_order(&vec![2, 0, 1, 0]), vec![1, 3, 2, 0]);
    assert!(chunk_order(&vec![]).is_empty());
}

#[test]
fn note_detail_selects_chunks_and_other_notes() {
    let paths = vec![Some(s("/v/a.md")), None, Some(s("/v/b.md")), Some(s("/v/a.md"))];
    assert_eq!(entries_matching(&paths, "/v/a.md", true), vec![0, 3]);
    assert_eq!(entries_matching(&paths, "/v/a.md", false), vec![1, 2]);
    assert_eq!(entries_matching(&paths, "", true), vec![1]);
    assert!(entries_matching(&vec![], "x", true).is_empty());
}

#[test]
fn payload_text_defaults() {
    assert_eq!(payload_str(&Some(s("t")), "d"), "t");
    assert_eq!(payload_str(&None, "d"), "d");
}

#[test]
fn note_count_up_and_down_restores_registry() {
    let mut reg: VaultRegistry = StrMap::new();
    reg.insert(s("a"), info("a", "/a", 4));
    assert!(reg.increment_note_count("a"));
    assert!(reg.decrement_note_count("a"));
    assert_eq!(reg.list_vaults(), vec![info("a", "/a", 4)]);
}

#[test]
fn ingestion_skips_and_counts_notes() {
    let mut ing = Ingestion::new();
    let unread: Result<vaultdb::markdown::ParsedNote, String> = Err(s("Read error: gone"));
    assert!(Ingestion::note_to_embed(&unread).is_none());
    let empty = Ok(parse_markdown("/v/E.md", "   "));
    assert!(Ingestion::note_to_embed(&empty).is_none());
    let full = Ok(parse_markdown("/v/F.md", "one two three"));
    let note = Ingestion::note_to_embed(&full).unwrap();
    assert!(ing.note_embedded(note, None).is_empty());
    assert_eq!(ing.stored(), 0);
    let ps = ing.note_embedded(note, Some(1));
    assert_eq!(ps.len(), 1);
    assert_eq!(ps[0].chunk, "one two three");
    assert_eq!(ing.stored(), 1);
}
