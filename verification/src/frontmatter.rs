//! The YAML-like front matter of a note: `key: value` lines between two
//! `---` fences at the top of the file.
use vstd::prelude::*;
use crate::strmap::StrMap;
use crate::text::{
    find_in_set, pieces, prefix_until, ranges_within, split_once, split_ranges, split_set, string_from_range,
    to_chars, trim_range, trim_ws, CharSet,
};

verus! {

/// The key/value pairs of a note's front matter. A key occurs once; a later
/// line with the same key replaces the earlier value.
pub type Frontmatter = StrMap<String>;

/// `s[k..k + 3]` is `---`.
pub open spec fn fence_at(s: Seq<char>, k: int) -> bool {
    0 <= k && k + 3 <= s.len() && s[k] == '-' && s[k + 1] == '-' && s[k + 2] == '-'
}

/// The first `k >= from` at which `s` holds `---`.
pub open spec fn find_fence(s: Seq<char>, from: int) -> Option<int>
    decreases s.len() - from,
{
    if from < 0 || from + 3 > s.len() {
        None
    } else if fence_at(s, from) {
        Some(from)
    } else {
        find_fence(s, from + 1)
    }
}

/// The map that front matter lines give: each line with a `:` sets the
/// trimmed text before the first `:` to the trimmed text after it.
pub open spec fn lines_map(ls: Seq<Seq<char>>) -> Map<Seq<char>, Seq<char>>
    decreases ls.len(),
{
    if ls.len() == 0 {
        Map::empty()
    } else {
        let m = lines_map(ls.drop_last());
        match split_once(ls.last(), CharSet::Colon) {
            Some(kv) => m.insert(trim_ws(kv.0), trim_ws(kv.1)),
            None => m,
        }
    }
}

/// What `extract_frontmatter` returns for `raw`: where `raw` starts with
/// `---` and holds a second `---` after it, the map of the trimmed block
/// between them (split into lines at `\n`) and the text after the second
/// fence; otherwise an empty map and `raw` unchanged.
pub open spec fn frontmatter_of(raw: Seq<char>) -> (Map<Seq<char>, Seq<char>>, Seq<char>) {
    if !fence_at(raw, 0) {
        (Map::empty(), raw)
    } else {
        match find_fence(raw, 3) {
            None => (Map::empty(), raw),
            Some(k) => (
                lines_map(split_set(trim_ws(raw.subrange(3, k)), CharSet::Newline)),
                raw.subrange(k + 3, raw.len() as int),
            ),
        }
    }
}

/// The key a front matter line sets: the trimmed text before its first
/// `:`, if it has one.
pub open spec fn line_key(l: Seq<char>) -> Option<Seq<char>> {
    match split_once(l, CharSet::Colon) {
        Some(kv) => Some(trim_ws(kv.0)),
        None => None,
    }
}

/// The value a front matter line gives its key: the trimmed text after its
/// first `:`.
pub open spec fn line_value(l: Seq<char>) -> Seq<char> {
    match split_once(l, CharSet::Colon) {
        Some(kv) => trim_ws(kv.1),
        None => Seq::empty(),
    }
}

/// In the front matter a key has the value of the last line that sets it,
/// and a key that no line sets has no value.
pub proof fn lemma_front_matter_last_line_wins(ls: Seq<Seq<char>>, k: Seq<char>)
    ensures
        lines_map(ls).contains_key(k) <==> exists|i: int| 0 <= i < ls.len() && line_key(#[trigger] ls[i]) == Some(k),
        forall|i: int|
            0 <= i < ls.len() && line_key(#[trigger] ls[i]) == Some(k) && (forall|j: int|
                i < j < ls.len() ==> line_key(#[trigger] ls[j]) != Some(k)) ==> lines_map(ls)[k] == line_value(ls[i]),
    decreases ls.len(),
{
    if ls.len() > 0 {
        let init = ls.drop_last();
        lemma_front_matter_last_line_wins(init, k);
        let l = ls.last();
        assert forall|i: int| 0 <= i < init.len() implies #[trigger] init[i] == ls[i] by {}
        if lines_map(ls).contains_key(k) {
            if line_key(l) == Some(k) {
                assert(line_key(ls[ls.len() - 1]) == Some(k));
            } else {
                assert(lines_map(init).contains_key(k));
                let i = choose|i: int| 0 <= i < init.len() && line_key(#[trigger] init[i]) == Some(k);
                assert(line_key(ls[i]) == Some(k));
            }
        }
        if exists|i: int| 0 <= i < ls.len() && line_key(#[trigger] ls[i]) == Some(k) {
            let i = choose|i: int| 0 <= i < ls.len() && line_key(#[trigger] ls[i]) == Some(k);
            if i < init.len() {
                assert(line_key(init[i]) == Some(k));
            }
        }
        assert forall|i: int|
            0 <= i < ls.len() && line_key(#[trigger] ls[i]) == Some(k) && (forall|j: int|
                i < j < ls.len() ==> line_key(#[trigger] ls[j]) != Some(k)) implies lines_map(ls)[k] == line_value(ls[i]) by {
            if i < ls.len() - 1 {
                assert(line_key(ls[ls.len() - 1]) != Some(k));
                assert(line_key(init[i]) == Some(k));
                assert forall|j: int| i < j < init.len() implies line_key(#[trigger] init[j]) != Some(k) by {
                    assert(init[j] == ls[j]);
                    assert(line_key(ls[j]) != Some(k));
                }
            }
        }
    }
}

/// The fence search finds the first `---` at or after `from`, and finds
/// none only where there is none.
proof fn lemma_find_fence_first(s: Seq<char>, from: int)
    requires
        0 <= from,
    ensures
        match find_fence(s, from) {
            Some(k) => from <= k && fence_at(s, k) && forall|j: int| from <= j < k ==> !#[trigger] fence_at(s, j),
            None => forall|j: int| from <= j ==> !#[trigger] fence_at(s, j),
        },
    decreases s.len() - from,
{
    if from + 3 <= s.len() && !fence_at(s, from) {
        lemma_find_fence_first(s, from + 1);
    }
}

/// The front matter ends at the first `---` after the opening one: when a
/// note starts with `---` and `k >= 3` is the least position of another
/// `---`, the front matter is read from `raw[3..k]` and the body is all of
/// `raw` after that fence, later `---` lines included. With no opening or no
/// closing fence, there is no front matter and the body is all of `raw`.
pub proof fn lemma_front_matter_ends_at_first_fence(raw: Seq<char>, k: int)
    ensures
        fence_at(raw, 0) && 3 <= k && fence_at(raw, k) && (forall|j: int|
            3 <= j < k ==> !#[trigger] fence_at(raw, j)) ==> frontmatter_of(raw) == (
            lines_map(split_set(trim_ws(raw.subrange(3, k)), CharSet::Newline)),
            raw.subrange(k + 3, raw.len() as int),
        ),
        (!fence_at(raw, 0) || forall|j: int| 3 <= j ==> !#[trigger] fence_at(raw, j)) ==> frontmatter_of(raw)
            == (Map::<Seq<char>, Seq<char>>::empty(), raw),
{
    lemma_find_fence_first(raw, 3);
    if fence_at(raw, 0) && 3 <= k && fence_at(raw, k) && (forall|j: int| 3 <= j < k ==> !#[trigger] fence_at(raw, j)) {
        match find_fence(raw, 3) {
            Some(m) => {
                if m < k {
                    assert(!fence_at(raw, m));
                }
                if k < m {
                    assert(!fence_at(raw, k));
                }
            },
            None => {
                assert(!fence_at(raw, k));
            },
        }
    }
    if fence_at(raw, 0) && (forall|j: int| 3 <= j ==> !#[trigger] fence_at(raw, j)) {
        match find_fence(raw, 3) {
            Some(m) => {
                assert(fence_at(raw, m));
            },
            None => {},
        }
    }
}

/// Splits a note into its front matter and its body.
pub fn extract_frontmatter(raw: &str) -> (r: (Frontmatter, String))
    ensures
        (r.0@, r.1@) == frontmatter_of(raw@),
{
    let v = to_chars(raw);
    let n = v.len();
    let mut fm = Frontmatter::new();
    if !(n >= 3 && v[0] == '-' && v[1] == '-' && v[2] == '-') {
        let body = string_from_range(&v, 0, n);
        proof {
            assert(v@.subrange(0, n as int) =~= v@);
        }
        return (fm, body);
    }
    let mut k: usize = 3;
    while n - k >= 3 && !(v[k] == '-' && v[k + 1] == '-' && v[k + 2] == '-')
        invariant
            3 <= k <= n,
            n == v@.len(),
            find_fence(v@, 3) == find_fence(v@, k as int),
        decreases n - k,
    {
        k = k + 1;
    }
    if n - k < 3 {
        let body = string_from_range(&v, 0, n);
        proof {
            assert(v@.subrange(0, n as int) =~= v@);
        }
        return (fm, body);
    }
    let (a, b) = trim_range(&v, 3, k, CharSet::Whitespace);
    let lines = split_ranges(&v, a, b, CharSet::Newline);
    let mut i: usize = 0;
    while i < lines.len()
        invariant
            0 <= i <= lines.len(),
            a <= b <= v@.len(),
            ranges_within(lines@, a as int, b as int),
            fm@ == lines_map(pieces(v@, lines@).take(i as int)),
        decreases lines.len() - i,
    {
        let (lo, hi) = lines[i];
        proof {
            assert(ranges_within(lines@, a as int, b as int));
            assert(a <= lines@[i as int].0 <= lines@[i as int].1 <= b);
            let ps = pieces(v@, lines@);
            assert(ps.take(i as int + 1).drop_last() =~= ps.take(i as int));
            assert(ps.take(i as int + 1).last() == v@.subrange(lo as int, hi as int));
        }
        let c = find_in_set(&v, lo, hi, CharSet::Colon);
        if c < hi {
            let (ka, kb) = trim_range(&v, lo, c, CharSet::Whitespace);
            let (va, vb) = trim_range(&v, c + 1, hi, CharSet::Whitespace);
            let key = string_from_range(&v, ka, kb);
            let value = string_from_range(&v, va, vb);
            proof {
                let line = v@.subrange(lo as int, hi as int);
                assert(prefix_until(line, CharSet::Colon).len() == c - lo);
                assert(line.subrange(c - lo + 1, line.len() as int) =~= v@.subrange(
                    c as int + 1,
                    hi as int,
                ));
            }
            fm.insert(key, value);
        }
        i = i + 1;
    }
    proof {
        assert(pieces(v@, lines@).take(lines.len() as int) =~= pieces(v@, lines@));
        assert(v@.subrange(a as int, b as int) == trim_ws(v@.subrange(3, k as int)));
    }
    let body = string_from_range(&v, k + 3, n);
    (fm, body)
}

} // verus!
