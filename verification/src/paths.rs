//! File system paths as strings, and the parts of `std::path` that the
//! library asks about them. Each answer of `std::path` is a function of the
//! path's text alone, so each has a name here.
use vstd::prelude::*;

verus! {

/// The stem of the file name of `path` (`Path::file_stem`).
pub uninterp spec fn spec_file_stem(path: Seq<char>) -> Option<Seq<char>>;

/// The extension of the file name of `path` (`Path::extension`).
pub uninterp spec fn spec_extension(path: Seq<char>) -> Option<Seq<char>>;

/// `base` with `name` appended as a component (`Path::join`).
pub uninterp spec fn spec_path_join(base: Seq<char>, name: Seq<char>) -> Seq<char>;

/// Whether the components of `base` are a prefix of those of `path`
/// (`Path::starts_with`).
pub uninterp spec fn spec_path_starts_with(path: Seq<char>, base: Seq<char>) -> bool;

/// The path without its last component (`Path::parent`).
pub uninterp spec fn spec_path_parent(path: Seq<char>) -> Option<Seq<char>>;

/// Whether two paths have the same components (`Path`'s `==`).
pub uninterp spec fn spec_path_eq(a: Seq<char>, b: Seq<char>) -> bool;

/// Calls `Path::file_stem` on `path`. The stem of a path given as UTF-8 is
/// UTF-8, so it converts without loss. The contract names the result.
#[verifier::external_body]
pub(crate) fn path_file_stem(path: &str) -> (r: Option<String>)
    ensures
        match r {
            Some(s) => spec_file_stem(path@) == Some(s@),
            None => spec_file_stem(path@) is None,
        },
{
    std::path::Path::new(path).file_stem().map(|s| s.to_string_lossy().into_owned())
}

/// Calls `Path::extension` on `path`. The contract names the result.
#[verifier::external_body]
pub(crate) fn path_extension(path: &str) -> (r: Option<String>)
    ensures
        match r {
            Some(s) => spec_extension(path@) == Some(s@),
            None => spec_extension(path@) is None,
        },
{
    std::path::Path::new(path).extension().map(|s| s.to_string_lossy().into_owned())
}

/// Calls `Path::join`. The contract names the result.
#[verifier::external_body]
pub(crate) fn path_join(base: &str, name: &str) -> (r: String)
    ensures
        r@ == spec_path_join(base@, name@),
{
    std::path::Path::new(base).join(name).to_string_lossy().into_owned()
}

/// Calls `Path::starts_with`. The contract names the result.
#[verifier::external_body]
pub(crate) fn path_starts_with(path: &str, base: &str) -> (r: bool)
    ensures
        r == spec_path_starts_with(path@, base@),
{
    std::path::Path::new(path).starts_with(base)
}

/// Calls `Path::parent`. The contract names the result.
#[verifier::external_body]
pub(crate) fn path_parent(path: &str) -> (r: Option<String>)
    ensures
        match r {
            Some(s) => spec_path_parent(path@) == Some(s@),
            None => spec_path_parent(path@) is None,
        },
{
    std::path::Path::new(path).parent().map(|p| p.to_string_lossy().into_owned())
}

/// Compares two paths with `Path`'s `==`. The contract names the result.
#[verifier::external_body]
pub(crate) fn path_eq(a: &str, b: &str) -> (r: bool)
    ensures
        r == spec_path_eq(a@, b@),
{
    std::path::Path::new(a) == std::path::Path::new(b)
}

} // verus!

verus! {

/// The path names a Markdown file: its extension is `md`.
pub open spec fn is_markdown_path(path: Seq<char>) -> bool {
    spec_extension(path) == Some(seq!['m', 'd'])
}

/// `s` holds `pat` somewhere.
pub open spec fn has_substring(s: Seq<char>, pat: Seq<char>) -> bool {
    exists|i: int| 0 <= i && i + pat.len() <= s.len() && #[trigger] s.subrange(i, i + pat.len()) == pat
}

/// A path the vault tracks: a Markdown file outside any `.trash` folder.
pub open spec fn is_tracked_note_path(path: Seq<char>) -> bool {
    is_markdown_path(path) && !has_substring(path, seq!['.', 't', 'r', 'a', 's', 'h'])
}

/// Whether the path names a Markdown file.
pub fn is_markdown_file(path: &str) -> (r: bool)
    ensures
        r == is_markdown_path(path@),
{
    match path_extension(path) {
        Some(e) => {
            let md = "md";
            proof {
                reveal_strlit("md");
                assert(md@ =~= seq!['m', 'd']);
            }
            let m = md.to_owned();
            e == m
        },
        None => false,
    }
}

/// Whether `s` holds `pat`.
pub fn contains_text(s: &str, pat: &str) -> (r: bool)
    ensures
        r == has_substring(s@, pat@),
{
    let v = crate::text::to_chars(s);
    let p = crate::text::to_chars(pat);
    let n = v.len();
    let m = p.len();
    if m > n {
        proof {
            assert forall|i: int| 0 <= i && i + m <= n implies #[trigger] v@.subrange(i, i + m) != p@ by {}
        }
        return false;
    }
    let mut i: usize = 0;
    while i <= n - m
        invariant
            m <= n,
            i <= n - m + 1,
            v@ == s@,
            p@ == pat@,
            n == v@.len(),
            m == p@.len(),
            forall|j: int| 0 <= j < i ==> #[trigger] v@.subrange(j, j + m) != p@,
        decreases n - i,
    {
        let mut k: usize = 0;
        while k < m && v[i + k] == p[k]
            invariant
                i + m <= n,
                v@ == s@,
                p@ == pat@,
                n == v@.len(),
                m == p@.len(),
                k <= m,
                forall|q: int| 0 <= q < k ==> v@[i + q] == p@[q],
            decreases m - k,
        {
            k = k + 1;
        }
        if k == m {
            proof {
                assert(v@.subrange(i as int, i + m) =~= p@);
                assert(s@.subrange(i as int, i + pat@.len()) == pat@);
            }
            return true;
        }
        proof {
            assert(v@.subrange(i as int, i + m)[k as int] != p@[k as int]);
        }
        i = i + 1;
    }
    false
}

/// Whether the vault tracks the file at `path`: a Markdown file outside any
/// `.trash` folder.
pub fn is_tracked_note(path: &str) -> (r: bool)
    ensures
        r == is_tracked_note_path(path@),
{
    let trash = ".trash";
    proof {
        reveal_strlit(".trash");
        assert(trash@ =~= seq!['.', 't', 'r', 'a', 's', 'h']);
    }
    is_markdown_file(path) && !contains_text(path, trash)
}

} // verus!
