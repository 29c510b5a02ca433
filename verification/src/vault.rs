//! The rules of a vault: its collection name, the registry of vaults, the
//! names that notes, folders and vaults get, the checks that keep file
//! operations inside a vault, and the payloads stored for each chunk.
use vstd::prelude::*;
use crate::graph::{opt_view, or_default, point_links, point_tags, point_title, PointView};
use crate::json::{spec_parse_string_list, spec_string_list_json, string_list_to_json};
use crate::markdown::ParsedNote;
use crate::paths::{
    path_eq, path_join, path_parent, path_starts_with, spec_path_eq, spec_path_join,
    spec_path_parent, spec_path_starts_with,
};
use crate::strmap::StrMap;
use crate::text::{string_from_range, to_chars, trim_range, trim_ws, views, CharSet};

verus! {

/// A registered vault: its name, the directory its notes come from, and the
/// number of notes it holds.
#[derive(Debug, PartialEq, Eq)]
pub struct VaultInfo {
    pub name: String,
    pub source_path: String,
    pub note_count: usize,
}

/// The view of a `VaultInfo`.
pub struct VaultInfoView {
    pub name: Seq<char>,
    pub source_path: Seq<char>,
    pub note_count: nat,
}

impl View for VaultInfo {
    type V = VaultInfoView;

    open spec fn view(&self) -> VaultInfoView {
        VaultInfoView {
            name: self.name@,
            source_path: self.source_path@,
            note_count: self.note_count as nat,
        }
    }
}

impl VaultInfo {
    /// A copy of the record.
    pub fn copy(&self) -> (r: VaultInfo)
        ensures
            r@ == self@,
    {
        VaultInfo {
            name: self.name.clone(),
            source_path: self.source_path.clone(),
            note_count: self.note_count,
        }
    }
}

/// The registered vaults, by name.
pub type VaultRegistry = StrMap<VaultInfo>;

/// `a` followed by `b`.
pub fn concat(a: &str, b: &str) -> (r: String)
    ensures
        r@ == a@ + b@,
{
    let mut x = to_chars(a);
    let mut y = to_chars(b);
    x.append(&mut y);
    string_from_range(&x, 0, x.len())
}

/// The name of the vector collection that holds a vault's chunks.
pub fn collection_name(vault: &str) -> (r: String)
    ensures
        r@ == "vault_"@ + vault@,
{
    concat("vault_", vault)
}

/// The message for a vault that is not registered.
pub fn vault_not_found(name: &str) -> (r: String)
    ensures
        r@ == "Vault '"@ + name@ + "' not found"@,
{
    let a = concat("Vault '", name);
    concat(a.as_str(), "' not found")
}

impl StrMap<VaultInfo> {
    /// The registered vault named `name`, or the message that there is none.
    pub fn lookup(&self, name: &str) -> (r: Result<&VaultInfo, String>)
        ensures
            match r {
                Ok(v) => self@.contains_key(name@) && self@[name@] == v@,
                Err(e) => !self@.contains_key(name@) && e@ == "Vault '"@ + name@
                    + "' not found"@,
            },
    {
        match self.get(name) {
            Some(v) => Ok(v),
            None => Err(vault_not_found(name)),
        }
    }

    /// Every registered vault, in order of registration.
    pub fn list_vaults(&self) -> (r: Vec<VaultInfo>)
        ensures
            r.len() == self@.dom().len(),
            r.len() == self.key_seq().len(),
            self.key_seq().no_duplicates(),
            forall|k: Seq<char>| #[trigger] self@.contains_key(k) <==> self.key_seq().contains(k),
            forall|i: int| 0 <= i < r.len() ==> #[trigger] r@[i]@ == self@[self.key_seq()[i]],
    {
        let n = self.len();
        let mut r: Vec<VaultInfo> = Vec::new();
        let mut i: usize = 0;
        while i < n
            invariant
                0 <= i <= n,
                n == self@.dom().len(),
                n == self.key_seq().len(),
                r.len() == i,
                forall|j: int| 0 <= j < i ==> #[trigger] r@[j]@ == self@[self.key_seq()[j]],
            decreases n - i,
        {
            let (_, v) = self.entry(i);
            r.push(v.copy());
            i = i + 1;
        }
        r
    }

    /// Adds one to the note count of the vault `name`; tells whether it is
    /// registered.
    pub fn increment_note_count(&mut self, name: &str) -> (found: bool)
        requires
            old(self)@.contains_key(name@) ==> old(self)@[name@].note_count < usize::MAX,
        ensures
            found == old(self)@.contains_key(name@),
            found ==> final(self)@ == old(self)@.insert(
                name@,
                VaultInfoView { note_count: old(self)@[name@].note_count + 1, ..old(self)@[name@] },
            ),
            !found ==> final(self)@ == old(self)@,
    {
        let updated = match self.get(name) {
            Some(v) => {
                let mut w = v.copy();
                w.note_count = w.note_count + 1;
                Some(w)
            },
            None => None,
        };
        match updated {
            Some(w) => {
                self.insert(name.to_owned(), w);
                true
            },
            None => false,
        }
    }

    /// Takes one from the note count of the vault `name`, never going below
    /// zero; tells whether it is registered.
    pub fn decrement_note_count(&mut self, name: &str) -> (found: bool)
        ensures
            found == old(self)@.contains_key(name@),
            found ==> final(self)@ == old(self)@.insert(
                name@,
                VaultInfoView {
                    note_count: if old(self)@[name@].note_count > 0 {
                        (old(self)@[name@].note_count - 1) as nat
                    } else {
                        0
                    },
                    ..old(self)@[name@]
                },
            ),
            !found ==> final(self)@ == old(self)@,
    {
        let updated = match self.get(name) {
            Some(v) => {
                let mut w = v.copy();
                if w.note_count > 0 {
                    w.note_count = w.note_count - 1;
                }
                Some(w)
            },
            None => None,
        };
        match updated {
            Some(w) => {
                self.insert(name.to_owned(), w);
                true
            },
            None => false,
        }
    }
}

/// `s` without its `/` and `\` characters.
pub open spec fn remove_separators(s: Seq<char>) -> Seq<char>
    decreases s.len(),
{
    if s.len() == 0 {
        s
    } else if s.last() == '/' || s.last() == '\\' {
        remove_separators(s.drop_last())
    } else {
        remove_separators(s.drop_last()).push(s.last())
    }
}

/// A user-given name made safe for the file system: trimmed, and with every
/// path separator removed.
pub open spec fn sanitized(name: Seq<char>) -> Seq<char> {
    remove_separators(trim_ws(name))
}

/// Trims a user-given name and removes its path separators.
pub fn sanitize_name(name: &str) -> (r: String)
    ensures
        r@ == sanitized(name@),
{
    let v = to_chars(name);
    let (a, b) = trim_range(&v, 0, v.len(), CharSet::Whitespace);
    proof {
        assert(v@.subrange(0, v@.len() as int) =~= v@);
    }
    let mut out: Vec<char> = Vec::new();
    let mut i = a;
    proof {
        assert(v@.subrange(a as int, a as int) =~= Seq::<char>::empty());
    }
    while i < b
        invariant
            a <= i <= b <= v@.len(),
            out@ == remove_separators(v@.subrange(a as int, i as int)),
        decreases b - i,
    {
        proof {
            let s = v@.subrange(a as int, i as int + 1);
            assert(s.drop_last() =~= v@.subrange(a as int, i as int));
            assert(s.last() == v@[i as int]);
        }
        if v[i] != '/' && v[i] != '\\' {
            out.push(v[i]);
        }
        i = i + 1;
    }
    string_from_range(&out, 0, out.len())
}

/// `s` ends with `.md`.
pub open spec fn ends_with_md(s: Seq<char>) -> bool {
    s.len() >= 3 && s[s.len() - 3] == '.' && s[s.len() - 2] == 'm' && s[s.len() - 1] == 'd'
}

/// The file name of a note named `s`: `s` itself when it ends with `.md`,
/// else `s.md`.
pub open spec fn note_file_name_of(s: Seq<char>) -> Seq<char> {
    if ends_with_md(s) {
        s
    } else {
        s + seq!['.', 'm', 'd']
    }
}

/// `s` with every trailing `.md` removed (`str::trim_end_matches(".md")`).
pub open spec fn strip_md(s: Seq<char>) -> Seq<char>
    decreases s.len(),
{
    if ends_with_md(s) {
        strip_md(s.subrange(0, s.len() - 3))
    } else {
        s
    }
}

/// The text of a new note with file name `name`: a level-one heading with
/// its title and a line break.
pub open spec fn new_note_text(name: Seq<char>) -> Seq<char> {
    seq!['#', ' '] + strip_md(name) + seq!['\n']
}

/// The file name for a note named `name` (sanitized already).
pub fn note_file_name(name: &str) -> (r: String)
    ensures
        r@ == note_file_name_of(name@),
{
    let mut v = to_chars(name);
    let n = v.len();
    if n >= 3 && v[n - 3] == '.' && v[n - 2] == 'm' && v[n - 1] == 'd' {
        proof {
            assert(v@.subrange(0, n as int) =~= v@);
        }
        return string_from_range(&v, 0, n);
    }
    let ghost before = v@;
    v.push('.');
    v.push('m');
    v.push('d');
    proof {
        assert(v@ =~= before + seq!['.', 'm', 'd']);
        assert(v@.subrange(0, v@.len() as int) =~= v@);
    }
    string_from_range(&v, 0, v.len())
}

/// The text of a new note with file name `name`.
pub fn new_note_content(name: &str) -> (r: String)
    ensures
        r@ == new_note_text(name@),
{
    let v = to_chars(name);
    let mut end = v.len();
    proof {
        assert(v@.subrange(0, end as int) =~= v@);
    }
    while end >= 3 && v[end - 3] == '.' && v[end - 2] == 'm' && v[end - 1] == 'd'
        invariant
            end <= v@.len(),
            strip_md(v@) == strip_md(v@.subrange(0, end as int)),
        decreases end,
    {
        proof {
            let s = v@.subrange(0, end as int);
            assert(s.subrange(0, s.len() - 3) =~= v@.subrange(0, end - 3));
        }
        end = end - 3;
    }
    let mut out: Vec<char> = Vec::new();
    out.push('#');
    out.push(' ');
    let mut i: usize = 0;
    while i < end
        invariant
            i <= end <= v@.len(),
            out@ == seq!['#', ' '] + v@.subrange(0, i as int),
        decreases end - i,
    {
        out.push(v[i]);
        proof {
            assert(v@.subrange(0, i as int + 1) =~= v@.subrange(0, i as int).push(v@[i as int]));
        }
        i = i + 1;
    }
    out.push('\n');
    proof {
        assert(out@ =~= new_note_text(name@));
        assert(out@.subrange(0, out@.len() as int) =~= out@);
    }
    string_from_range(&out, 0, out.len())
}

/// Where a new note goes and what it first holds.
#[derive(Debug)]
pub struct NotePlan {
    /// The path of the new file.
    pub path: String,
    /// Its first text.
    pub content: String,
}

/// Decides where a new note goes, given the canonical paths of the vault's
/// directory and of the parent directory: inside the vault, under the
/// sanitized name with `.md` added.
pub fn plan_new_note(source: &str, parent: &str, file_name: &str) -> (r: Result<NotePlan, String>)
    ensures
        match r {
            Ok(p) => spec_path_starts_with(parent@, source@) && p.path@ == spec_path_join(
                parent@,
                note_file_name_of(sanitized(file_name@)),
            ) && p.content@ == new_note_text(note_file_name_of(sanitized(file_name@))),
            Err(e) => !spec_path_starts_with(parent@, source@) && e@
                == "Path traversal denied: directory is outside the vault"@,
        },
{
    if !path_starts_with(parent, source) {
        return Err("Path traversal denied: directory is outside the vault".to_owned());
    }
    let s = sanitize_name(file_name);
    let name = note_file_name(s.as_str());
    let path = path_join(parent, name.as_str());
    let content = new_note_content(name.as_str());
    Ok(NotePlan { path, content })
}

/// Decides where a new folder goes, given the canonical paths of the
/// vault's directory and of the parent directory.
pub fn plan_new_folder(source: &str, parent: &str, folder_name: &str) -> (r: Result<String, String>)
    ensures
        match r {
            Ok(p) => spec_path_starts_with(parent@, source@) && sanitized(folder_name@).len() > 0
                && p@ == spec_path_join(parent@, sanitized(folder_name@)),
            Err(e) => if !spec_path_starts_with(parent@, source@) {
                e@ == "Path traversal denied: directory is outside the vault"@
            } else {
                sanitized(folder_name@).len() == 0 && e@ == "Folder name cannot be empty"@
            },
        },
{
    if !path_starts_with(parent, source) {
        return Err("Path traversal denied: directory is outside the vault".to_owned());
    }
    let s = sanitize_name(folder_name);
    if s.as_str().unicode_len() == 0 {
        return Err("Folder name cannot be empty".to_owned());
    }
    Ok(path_join(parent, s.as_str()))
}

/// Checks that a folder may be deleted, given the canonical paths of the
/// vault's directory and of the folder: it lies inside the vault and is not
/// the vault's root.
pub fn check_folder_deletable(source: &str, target: &str) -> (r: Result<(), String>)
    ensures
        r is Ok <==> (spec_path_starts_with(target@, source@) && !spec_path_eq(target@, source@)),
        r matches Err(e) ==> e@ == "Cannot delete vault root or paths outside the vault"@,
{
    if !path_starts_with(target, source) || path_eq(target, source) {
        return Err("Cannot delete vault root or paths outside the vault".to_owned());
    }
    Ok(())
}

/// Checks that a note lies inside the vault, given canonical paths.
pub fn check_note_inside(source: &str, target: &str) -> (r: Result<(), String>)
    ensures
        r is Ok <==> spec_path_starts_with(target@, source@),
        r matches Err(e) ==> e@ == "Path traversal denied: note is outside the vault"@,
{
    if !path_starts_with(target, source) {
        return Err("Path traversal denied: note is outside the vault".to_owned());
    }
    Ok(())
}

/// Decides the record of a new, empty vault named `name` under the
/// directory `parent_dir`.
pub fn plan_new_vault(name: &str, parent_dir: &str) -> (r: Result<VaultInfo, String>)
    ensures
        match r {
            Ok(v) => sanitized(name@).len() > 0 && v@ == (VaultInfoView {
                name: sanitized(name@),
                source_path: spec_path_join(parent_dir@, sanitized(name@)),
                note_count: 0,
            }),
            Err(e) => sanitized(name@).len() == 0 && e@ == "Vault name cannot be empty"@,
        },
{
    let s = sanitize_name(name);
    if s.as_str().unicode_len() == 0 {
        return Err("Vault name cannot be empty".to_owned());
    }
    let dir = path_join(parent_dir, s.as_str());
    Ok(VaultInfo { name: s, source_path: dir, note_count: 0 })
}

/// Where a renamed item goes, and the name it gets.
#[derive(Debug)]
pub struct RenamePlan {
    /// The new path.
    pub new_path: String,
    /// The sanitized new name.
    pub name: String,
}

/// Decides where an item is renamed to, given the canonical paths of the
/// vault's directory and of the item.
pub fn plan_rename(source: &str, old: &str, new_name: &str) -> (r: Result<RenamePlan, String>)
    ensures
        match r {
            Ok(p) => spec_path_starts_with(old@, source@) && sanitized(new_name@).len() > 0
                && spec_path_parent(old@) is Some && p.name@ == sanitized(new_name@) && p.new_path@
                == spec_path_join(spec_path_parent(old@)->0, sanitized(new_name@)),
            Err(e) => if !spec_path_starts_with(old@, source@) {
                e@ == "Path traversal denied"@
            } else if sanitized(new_name@).len() == 0 {
                e@ == "Name cannot be empty"@
            } else {
                spec_path_parent(old@) is None && e@ == "Cannot get parent directory"@
            },
        },
{
    if !path_starts_with(old, source) {
        return Err("Path traversal denied".to_owned());
    }
    let s = sanitize_name(new_name);
    if s.as_str().unicode_len() == 0 {
        return Err("Name cannot be empty".to_owned());
    }
    match path_parent(old) {
        Some(p) => {
            let new_path = path_join(p.as_str(), s.as_str());
            Ok(RenamePlan { new_path, name: s })
        },
        None => Err("Cannot get parent directory".to_owned()),
    }
}

/// The payload stored with one embedded chunk of a note.
#[derive(Debug)]
pub struct ChunkPayload {
    pub title: String,
    pub path: String,
    pub chunk: String,
    pub chunk_index: usize,
    /// The note's links as a JSON list.
    pub links_json: String,
    /// The note's tags as a JSON list.
    pub tags_json: String,
}

/// What the graph reads from a stored payload.
pub open spec fn stored_point(p: ChunkPayload) -> PointView {
    PointView {
        title: Some(p.title@),
        path: Some(p.path@),
        tags: Some(p.tags_json@),
        links: Some(p.links_json@),
    }
}

/// `r` holds the payloads of the first `min(chunks, embedded)` chunks of
/// `note`, each with its index and the note's title, path, links and tags;
/// what the graph reads back from each is the note's title, links and tags.
pub open spec fn payloads_of(r: Seq<ChunkPayload>, note: ParsedNote, embedded: nat) -> bool {
    &&& r.len() == if note.chunks.len() < embedded {
        note.chunks.len() as nat
    } else {
        embedded
    }
    &&& forall|i: int|
        0 <= i < r.len() ==> {
            &&& (#[trigger] r[i]).title@ == note.title@
            &&& r[i].path@ == note.path@
            &&& r[i].chunk@ == note.chunks@[i]@
            &&& r[i].chunk_index == i
            &&& r[i].links_json@ == spec_string_list_json(views(note.links@))
            &&& r[i].tags_json@ == spec_string_list_json(views(note.tags@))
            &&& point_title(stored_point(r[i])) == note.title@
            &&& point_links(stored_point(r[i])) == views(note.links@)
            &&& point_tags(stored_point(r[i])) == views(note.tags@)
        }
}

/// The payloads of the chunks of `note` that have an embedding: the first
/// `min(chunks, embedded)` chunks, each with its index and the note's title,
/// path, links and tags. What the graph reads back from each is the note's
/// title, links and tags.
pub fn chunk_payloads(note: &ParsedNote, embedded: usize) -> (r: Vec<ChunkPayload>)
    ensures
        payloads_of(r@, *note, embedded as nat),
{
    let n = if note.chunks.len() < embedded {
        note.chunks.len()
    } else {
        embedded
    };
    let links_json = string_list_to_json(&note.links);
    let tags_json = string_list_to_json(&note.tags);
    let mut r: Vec<ChunkPayload> = Vec::new();
    let mut i: usize = 0;
    while i < n
        invariant
            0 <= i <= n,
            n <= note.chunks.len(),
            r.len() == i,
            links_json@ == spec_string_list_json(views(note.links@)),
            tags_json@ == spec_string_list_json(views(note.tags@)),
            spec_parse_string_list(links_json@) == Some(views(note.links@)),
            spec_parse_string_list(tags_json@) == Some(views(note.tags@)),
            forall|j: int|
                0 <= j < i ==> {
                    &&& (#[trigger] r@[j]).title@ == note.title@
                    &&& r@[j].path@ == note.path@
                    &&& r@[j].chunk@ == note.chunks@[j]@
                    &&& r@[j].chunk_index == j
                    &&& r@[j].links_json@ == links_json@
                    &&& r@[j].tags_json@ == tags_json@
                },
        decreases n - i,
    {
        r.push(
            ChunkPayload {
                title: note.title.clone(),
                path: note.path.clone(),
                chunk: note.chunks[i].clone(),
                chunk_index: i,
                links_json: links_json.clone(),
                tags_json: tags_json.clone(),
            },
        );
        i = i + 1;
    }
    r
}

/// The tally of a vault's ingestion: how many notes have been stored.
pub struct Ingestion {
    stored: usize,
}

impl View for Ingestion {
    type V = nat;

    closed spec fn view(&self) -> nat {
        self.stored as nat
    }
}

impl Ingestion {
    /// An ingestion that has stored no note yet.
    pub fn new() -> (r: Self)
        ensures
            r@ == 0,
    {
        Ingestion { stored: 0 }
    }

    /// The number of notes stored so far.
    pub fn stored(&self) -> (n: usize)
        ensures
            n == self@,
    {
        self.stored
    }

    /// The note whose chunks are to be embedded, given how reading it went:
    /// a note that could not be read, or that has no chunks, is skipped.
    pub fn note_to_embed(read: &Result<ParsedNote, String>) -> (r: Option<&ParsedNote>)
        ensures
            match read {
                Ok(n) => if n.chunks.len() > 0 {
                    r == Some(n)
                } else {
                    r is None
                },
                Err(_) => r is None,
            },
    {
        match read {
            Ok(n) => if n.chunks.len() > 0 {
                Some(n)
            } else {
                None
            },
            Err(_) => None,
        }
    }

    /// Records how embedding `note` went: when the service answered with
    /// `embedded` embeddings, the note is counted and the payloads of its
    /// embedded chunks are returned; when it failed, the note is skipped.
    pub fn note_embedded(&mut self, note: &ParsedNote, embedded: Option<usize>) -> (r: Vec<ChunkPayload>)
        requires
            old(self)@ < usize::MAX,
        ensures
            match embedded {
                Some(n) => final(self)@ == old(self)@ + 1 && payloads_of(r@, *note, n as nat),
                None => final(self)@ == old(self)@ && r@.len() == 0,
            },
    {
        match embedded {
            Some(n) => {
                self.stored = self.stored + 1;
                chunk_payloads(note, n)
            },
            None => Vec::new(),
        }
    }
}

/// The number of points written to the store at once.
pub const UPSERT_BATCH: usize = 100;

/// Splits `0..n` into consecutive ranges of `size` (the last one shorter
/// when `size` does not divide `n`), in order (`[T]::chunks`).
pub fn batch_ranges(n: usize, size: usize) -> (r: Vec<(usize, usize)>)
    requires
        size > 0,
    ensures
        n == 0 <==> r.len() == 0,
        r.len() > 0 ==> r@[0].0 == 0 && r@[r.len() - 1].1 == n,
        forall|k: int| 0 <= k < r.len() ==> (#[trigger] r@[k]).0 < r@[k].1 <= r@[k].0 + size,
        forall|k: int|
            0 <= k < r.len() - 1 ==> (#[trigger] r@[k]).1 == r@[k].0 + size && r@[k + 1].0 == r@[k].1,
{
    let mut r: Vec<(usize, usize)> = Vec::new();
    let mut start: usize = 0;
    while start < n
        invariant
            size > 0,
            start <= n,
            r.len() == 0 ==> start == 0,
            r.len() > 0 ==> r@[0].0 == 0 && r@[r.len() - 1].1 == start && start < n,
            forall|k: int| 0 <= k < r.len() ==> (#[trigger] r@[k]).0 < r@[k].1 <= r@[k].0 + size,
            forall|k: int|
                0 <= k < r.len() - 1 ==> (#[trigger] r@[k]).1 == r@[k].0 + size && r@[k + 1].0
                    == r@[k].1,
            forall|k: int| 0 <= k < r.len() ==> (#[trigger] r@[k]).1 == r@[k].0 + size,
        decreases n - start,
    {
        let end = if n - start > size {
            start + size
        } else {
            n
        };
        r.push((start, end));
        if end == n {
            return r;
        }
        start = end;
    }
    r
}

/// Position `i` comes before position `j` in a stable sort by `ks`.
pub open spec fn index_before(ks: Seq<usize>, i: int, j: int) -> bool {
    ks[i] < ks[j] || (ks[i] == ks[j] && i < j)
}

/// `ord` lists each position of `ks` once, in the order of a stable sort by
/// `ks`.
pub open spec fn is_index_order(ks: Seq<usize>, ord: Seq<usize>) -> bool {
    &&& ord.len() == ks.len()
    &&& forall|a: int| 0 <= a < ord.len() ==> (#[trigger] ord[a]) < ks.len()
    &&& forall|a: int, b: int| 0 <= a < b < ord.len() ==> #[trigger] ord[a] != #[trigger] ord[b]
    &&& forall|a: int, b: int|
        0 <= a < b < ord.len() ==> index_before(ks, #[trigger] ord[a] as int, #[trigger] ord[b] as int)
}

/// The order in which a note's stored chunks are shown: by chunk index,
/// chunks with equal indexes in the order they were found
/// (`sort_by_key`).
pub fn chunk_order(indexes: &Vec<usize>) -> (ord: Vec<usize>)
    ensures
        is_index_order(indexes@, ord@),
{
    let ghost ks = indexes@;
    let n = indexes.len();
    let mut ord: Vec<usize> = Vec::new();
    let mut x: usize = 0;
    while x < n
        invariant
            0 <= x <= n,
            n == ks.len(),
            ks == indexes@,
            ord.len() == x,
            forall|a: int| 0 <= a < ord.len() ==> (#[trigger] ord@[a]) < x,
            forall|a: int, b: int| 0 <= a < b < ord.len() ==> #[trigger] ord@[a] != #[trigger] ord@[b],
            forall|a: int, b: int|
                0 <= a < b < ord.len() ==> index_before(ks, #[trigger] ord@[a] as int, #[trigger] ord@[b] as int),
        decreases n - x,
    {
        let kx = indexes[x];
        let mut p: usize = 0;
        while p < ord.len() && indexes[ord[p]] <= kx
            invariant
                0 <= p <= ord.len(),
                ord.len() == x,
                x < n,
                n == ks.len(),
                ks == indexes@,
                kx == ks[x as int],
                forall|a: int| 0 <= a < ord.len() ==> (#[trigger] ord@[a]) < x,
                forall|a: int| 0 <= a < p ==> index_before(ks, #[trigger] ord@[a] as int, x as int),
            decreases ord.len() - p,
        {
            p = p + 1;
        }
        let ghost old_ord = ord@;
        ord.insert(p, x);
        proof {
            assert(ord@ =~= old_ord.insert(p as int, x));
            assert forall|a: int| 0 <= a < ord.len() implies (#[trigger] ord@[a]) < x + 1 by {
                if a < p {
                    assert(ord@[a] == old_ord[a]);
                } else if a > p {
                    assert(ord@[a] == old_ord[a - 1]);
                }
            }
            assert forall|a: int, b: int| 0 <= a < b < ord.len() implies #[trigger] ord@[a] != #[trigger] ord@[b] by {
                if b < p {
                    assert(ord@[a] == old_ord[a] && ord@[b] == old_ord[b]);
                } else if b == p {
                    assert(ord@[a] == old_ord[a]);
                } else if a < p {
                    assert(ord@[a] == old_ord[a] && ord@[b] == old_ord[b - 1]);
                } else if a == p {
                    assert(ord@[b] == old_ord[b - 1]);
                } else {
                    assert(ord@[a] == old_ord[a - 1] && ord@[b] == old_ord[b - 1]);
                }
            }
            assert forall|a: int, b: int| 0 <= a < b < ord.len() implies index_before(ks, #[trigger] ord@[a] as int, #[trigger] ord@[b] as int) by {
                if b < p {
                    assert(ord@[a] == old_ord[a] && ord@[b] == old_ord[b]);
                } else if b == p {
                    assert(ord@[a] == old_ord[a]);
                } else if a < p {
                    assert(ord@[a] == old_ord[a] && ord@[b] == old_ord[b - 1]);
                    let qp = old_ord[p as int] as int;
                    assert(ks[qp] > kx);
                    if b - 1 > p {
                        assert(index_before(ks, qp, old_ord[b - 1] as int));
                    }
                } else if a == p {
                    assert(ord@[b] == old_ord[b - 1]);
                    let qp = old_ord[p as int] as int;
                    assert(ks[qp] > kx);
                    if b - 1 > p {
                        assert(index_before(ks, qp, old_ord[b - 1] as int));
                    }
                } else {
                    assert(ord@[a] == old_ord[a - 1] && ord@[b] == old_ord[b - 1]);
                }
            }
        }
        x = x + 1;
    }
    ord
}

/// The text of a payload entry, empty when it is missing.
pub open spec fn entry_text(o: Option<String>) -> Seq<char> {
    or_default(opt_view(o), Seq::empty())
}

/// The positions among the first `n` entries whose text is `value` (when
/// `equal`) or is not `value` (otherwise), in order.
pub open spec fn selected(es: Seq<Option<String>>, value: Seq<char>, equal: bool, n: int) -> Seq<usize>
    decreases n,
{
    if n <= 0 {
        Seq::empty()
    } else {
        let r = selected(es, value, equal, n - 1);
        if (entry_text(es[n - 1]) == value) == equal {
            r.push((n - 1) as usize)
        } else {
            r
        }
    }
}

/// The positions of the entries whose text (empty when missing) is `value`
/// when `equal` holds, or differs from it otherwise, in order: the stored
/// chunks of one note, or the search hits from other notes.
pub fn entries_matching(entries: &Vec<Option<String>>, value: &str, equal: bool) -> (r: Vec<usize>)
    ensures
        r@ == selected(entries@, value@, equal, entries@.len() as int),
{
    let target = value.to_owned();
    let mut r: Vec<usize> = Vec::new();
    let mut i: usize = 0;
    while i < entries.len()
        invariant
            0 <= i <= entries@.len(),
            target@ == value@,
            r@ == selected(entries@, value@, equal, i as int),
        decreases entries@.len() - i,
    {
        let e = "";
        proof {
            reveal_strlit("");
        }
        let t = crate::graph::payload_str(&entries[i], e);
        proof {
            assert(e@ =~= Seq::<char>::empty());
        }
        let same = t == target;
        if same == equal {
            r.push(i);
        }
        i = i + 1;
    }
    r
}

/// Each vault is stored in a collection of its own: different vault names
/// give different collection names.
pub proof fn lemma_collections_isolated(a: Seq<char>, b: Seq<char>)
    requires
        a != b,
    ensures
        "vault_"@ + a != "vault_"@ + b,
{
    let p = "vault_"@;
    if p + a == p + b {
        assert(a =~= (p + a).skip(p.len() as int));
        assert(b =~= (p + b).skip(p.len() as int));
    }
}

/// A vault registered under a name is found under that name, with the
/// record that was registered; the other vaults are unchanged.
pub proof fn lemma_registered_vault_found(
    reg: Map<Seq<char>, VaultInfoView>,
    name: Seq<char>,
    info: VaultInfoView,
    other: Seq<char>,
)
    ensures
        reg.insert(name, info).contains_key(name),
        reg.insert(name, info)[name] == info,
        other != name ==> (reg.insert(name, info).contains_key(other) == reg.contains_key(other)),
        other != name && reg.contains_key(other) ==> reg.insert(name, info)[other] == reg[other],
{
}

/// A deleted vault is no longer found; the other vaults are unchanged.
pub proof fn lemma_deleted_vault_gone(reg: Map<Seq<char>, VaultInfoView>, name: Seq<char>, other: Seq<char>)
    ensures
        !reg.remove(name).contains_key(name),
        other != name ==> (reg.remove(name).contains_key(other) == reg.contains_key(other)),
        other != name && reg.contains_key(other) ==> reg.remove(name)[other] == reg[other],
{
}

/// Adding a note to a vault and deleting it again gives back the registry
/// it started from.
pub proof fn lemma_note_count_round_trip(reg: Map<Seq<char>, VaultInfoView>, name: Seq<char>)
    requires
        reg.contains_key(name),
    ensures
        ({
            let up = reg.insert(name, VaultInfoView { note_count: reg[name].note_count + 1, ..reg[name] });
            let down = up.insert(
                name,
                VaultInfoView {
                    note_count: if up[name].note_count > 0 {
                        (up[name].note_count - 1) as nat
                    } else {
                        0
                    },
                    ..up[name]
                },
            );
            down == reg
        }),
{
    let up = reg.insert(name, VaultInfoView { note_count: reg[name].note_count + 1, ..reg[name] });
    let down = up.insert(
        name,
        VaultInfoView {
            note_count: if up[name].note_count > 0 {
                (up[name].note_count - 1) as nat
            } else {
                0
            },
            ..up[name]
        },
    );
    assert(down[name] == reg[name]);
    assert(down =~= reg);
}

/// No character of a sanitized name is a path separator, so a sanitized
/// name is one path component.
pub proof fn lemma_sanitized_has_no_separator(name: Seq<char>)
    ensures
        forall|i: int|
            0 <= i < sanitized(name).len() ==> #[trigger] sanitized(name)[i] != '/' && sanitized(
                name,
            )[i] != '\\',
{
    lemma_remove_separators(trim_ws(name));
}

proof fn lemma_remove_separators(s: Seq<char>)
    ensures
        forall|i: int|
            0 <= i < remove_separators(s).len() ==> #[trigger] remove_separators(s)[i] != '/'
                && remove_separators(s)[i] != '\\',
    decreases s.len(),
{
    if s.len() > 0 {
        lemma_remove_separators(s.drop_last());
        let r = remove_separators(s.drop_last());
        if !(s.last() == '/' || s.last() == '\\') {
            assert forall|i: int| 0 <= i < r.push(s.last()).len() implies #[trigger] r.push(
                s.last(),
            )[i] != '/' && r.push(s.last())[i] != '\\' by {
                if i < r.len() {
                    assert(r.push(s.last())[i] == r[i]);
                }
            }
        }
    }
}

/// The file name of a note always ends with `.md`, and naming it again
/// changes nothing.
pub proof fn lemma_note_file_name(s: Seq<char>)
    ensures
        ends_with_md(note_file_name_of(s)),
        note_file_name_of(note_file_name_of(s)) == note_file_name_of(s),
{
}

} // verus!
