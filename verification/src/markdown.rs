//! Reading a note: its wikilinks, its tags, its plain text and the chunks
//! of plain text that are embedded.
use vstd::prelude::*;
use crate::frontmatter::{extract_frontmatter, frontmatter_of, Frontmatter};
use crate::paths::{path_file_stem, spec_file_stem};
use pulldown_cmark::{Event, Parser, Tag, TagEnd};
use crate::text::{
    cviews, find_in_set, in_set, insert_sorted, is_alnum, is_ascii_alnum, is_ws, lemma_prefix_until_shape, lemma_trim_set_shape, lemma_trim_start_shape, lemma_sorted_lists_equal, lemma_words_concat, pieces, prefix_until, ranges_within,
    split_ranges, split_set, strictly_sorted, string_from_range, strings_of, to_chars, trim_range,
    trim_set, trim_start_index, trim_start_set, trim_ws, views, word_ranges, words, copy_range,
    CharSet, join,
};

verus! {

/// The target of a wikilink body: the text before the first `|` (an alias
/// follows it), trimmed.
pub open spec fn link_target(inner: Seq<char>) -> Seq<char> {
    trim_ws(prefix_until(inner, CharSet::Pipe))
}

/// The wikilinks of `s`, in order. A link opens with `[[` and runs to the
/// next `]` or to the end of the text; links whose target is empty are left
/// out.
pub open spec fn wikilinks(s: Seq<char>) -> Seq<Seq<char>>
    decreases s.len(),
{
    if s.len() < 2 {
        Seq::empty()
    } else if s[0] == '[' && s[1] == '[' {
        let body = s.subrange(2, s.len() as int);
        let inner = prefix_until(body, CharSet::CloseBracket);
        let t = link_target(inner);
        let found: Seq<Seq<char>> = if t.len() > 0 {
            seq![t]
        } else {
            Seq::empty()
        };
        if inner.len() < body.len() {
            found + wikilinks(body.subrange(inner.len() as int + 1, body.len() as int))
        } else {
            found
        }
    } else {
        wikilinks(s.drop_first())
    }
}

/// The `[[wikilinks]]` of a note body, aliases removed.
pub fn extract_wikilinks(text: &str) -> (links: Vec<String>)
    ensures
        views(links@) == wikilinks(text@),
{
    let v = to_chars(text);
    let n = v.len();
    let mut links: Vec<String> = Vec::new();
    let mut i: usize = 0;
    proof {
        assert(v@.subrange(0, n as int) =~= v@);
    }
    while n - i >= 2
        invariant
            0 <= i <= n,
            n == v@.len(),
            views(links@) + wikilinks(v@.subrange(i as int, n as int)) == wikilinks(v@),
        decreases n - i,
    {
        let ghost s = v@.subrange(i as int, n as int);
        if v[i] == '[' && v[i + 1] == '[' {
            let k = find_in_set(&v, i + 2, n, CharSet::CloseBracket);
            let p = find_in_set(&v, i + 2, k, CharSet::Pipe);
            let (a, b) = trim_range(&v, i + 2, p, CharSet::Whitespace);
            let ghost old_links = links@;
            proof {
                let body = s.subrange(2, s.len() as int);
                assert(body =~= v@.subrange(i + 2, n as int));
                assert(prefix_until(body, CharSet::CloseBracket) == v@.subrange(i + 2, k as int));
                assert(link_target(v@.subrange(i + 2, k as int)) == v@.subrange(a as int, b as int));
            }
            if a < b {
                let t = string_from_range(&v, a, b);
                links.push(t);
                proof {
                    assert(views(links@) =~= views(old_links).push(t@));
                }
            }
            proof {
                let body = s.subrange(2, s.len() as int);
                let t = v@.subrange(a as int, b as int);
                let found: Seq<Seq<char>> = if t.len() > 0 {
                    seq![t]
                } else {
                    Seq::empty()
                };
                assert(views(links@) =~= views(old_links) + found);
                if k < n {
                    assert(body.subrange(k - i - 2 + 1, body.len() as int) =~= v@.subrange(
                        k as int + 1,
                        n as int,
                    ));
                    assert(wikilinks(s) == found + wikilinks(v@.subrange(k as int + 1, n as int)));
                    assert(views(links@) + wikilinks(v@.subrange(k as int + 1, n as int)) =~= views(
                        old_links,
                    ) + wikilinks(s));
                } else {
                    assert(wikilinks(s) == found);
                    assert(wikilinks(v@.subrange(n as int, n as int)) =~= Seq::<Seq<char>>::empty());
                    assert(views(links@) + wikilinks(v@.subrange(n as int, n as int)) =~= views(
                        old_links,
                    ) + wikilinks(s));
                }
            }
            if k < n {
                i = k + 1;
            } else {
                i = n;
            }
        } else {
            proof {
                assert(s.drop_first() =~= v@.subrange(i as int + 1, n as int));
            }
            i = i + 1;
        }
    }
    proof {
        assert(wikilinks(v@.subrange(i as int, n as int)) =~= Seq::<Seq<char>>::empty());
        assert(views(links@) + Seq::<Seq<char>>::empty() =~= views(links@));
    }
    links
}

/// A character that can be part of an inline tag: a letter, a digit, `-`
/// or `_`.
pub open spec fn is_tag_char(c: char) -> bool {
    is_alnum(c) || c == '-' || c == '_'
}

/// The tag of a `#word` is the stretch of the word from its first to its
/// last tag character, whatever lies between: every character outside it is
/// not a tag character, and a non-empty tag starts and ends with one. So a
/// `/` inside a nested tag is kept: the tag of `#a/b` is `a/b`.
pub proof fn lemma_inline_tag_is_trimmed_word(w: Seq<char>) -> (r: (int, int))
    ensures
        0 <= r.0 <= r.1 <= w.len(),
        inline_tag(w) == w.subrange(r.0, r.1),
        forall|i: int| 0 <= i < r.0 ==> !is_tag_char(#[trigger] w[i]),
        forall|i: int| r.1 <= i < w.len() ==> !is_tag_char(#[trigger] w[i]),
        r.0 < r.1 ==> is_tag_char(w[r.0]) && is_tag_char(w[r.1 - 1]),
{
    let u = trim_start_set(w, CharSet::Hash);
    let h = lemma_trim_start_shape(w, CharSet::Hash);
    let ab = lemma_trim_set_shape(u, CharSet::NonTagChar);
    let a = h + ab.0;
    let b = h + ab.1;
    assert(u == w.subrange(h, w.len() as int));
    assert(u.subrange(ab.0, ab.1) =~= w.subrange(a, b));
    assert forall|i: int| 0 <= i < a implies !is_tag_char(#[trigger] w[i]) by {
        if i < h {
            assert(w[i] == '#');
            assert(!is_ascii_alnum('#'));
        } else {
            assert(w[i] == u[i - h]);
            assert(in_set(CharSet::NonTagChar, u[i - h]));
        }
    }
    assert forall|i: int| b <= i < w.len() implies !is_tag_char(#[trigger] w[i]) by {
        assert(w[i] == u[i - h]);
        assert(in_set(CharSet::NonTagChar, u[i - h]));
    }
    if a < b {
        assert(w[a] == u[ab.0]);
        assert(w[b - 1] == u[ab.1 - 1]);
    }
    (a, b)
}

/// A word that gives an inline tag: it starts with `#`, is longer than `#`,
/// and its tag is not empty.
pub open spec fn tag_word(w: Seq<char>) -> bool {
    w.len() > 1 && w[0] == '#' && inline_tag(w).len() > 0
}

/// The inline tags of a list of words are exactly the tags of its words
/// that start with `#`, are longer than `#` and give a non-empty tag.
pub proof fn lemma_inline_tags_of_words(ws: Seq<Seq<char>>)
    ensures
        forall|t: Seq<char>|
            #[trigger] inline_tags_of(ws).contains(t) <==> exists|i: int|
                0 <= i < ws.len() && tag_word(#[trigger] ws[i]) && inline_tag(ws[i]) == t,
    decreases ws.len(),
{
    if ws.len() > 0 {
        let init = ws.drop_last();
        lemma_inline_tags_of_words(init);
        let r = inline_tags_of(init);
        let w = ws.last();
        assert forall|t: Seq<char>|
            #[trigger] inline_tags_of(ws).contains(t) <==> exists|i: int|
                0 <= i < ws.len() && tag_word(#[trigger] ws[i]) && inline_tag(ws[i]) == t by {
            if inline_tags_of(ws).contains(t) {
                if r.contains(t) {
                    let i = choose|i: int| 0 <= i < init.len() && tag_word(#[trigger] init[i]) && inline_tag(init[i]) == t;
                    assert(ws[i] == init[i]);
                } else {
                    assert(tag_word(w));
                    let k = choose|k: int| 0 <= k < inline_tags_of(ws).len() && inline_tags_of(ws)[k] == t;
                    assert(inline_tags_of(ws) == r.push(inline_tag(w)));
                    if k < r.len() {
                        assert(r[k] == t);
                    }
                    assert(ws[ws.len() - 1] == w);
                }
            }
            if exists|i: int| 0 <= i < ws.len() && tag_word(#[trigger] ws[i]) && inline_tag(ws[i]) == t {
                let i = choose|i: int| 0 <= i < ws.len() && tag_word(#[trigger] ws[i]) && inline_tag(ws[i]) == t;
                if i < init.len() {
                    assert(init[i] == ws[i]);
                    assert(r.contains(t));
                    let k = choose|k: int| 0 <= k < r.len() && r[k] == t;
                    if tag_word(w) {
                        assert(inline_tags_of(ws)[k] == t);
                    } else {
                        assert(inline_tags_of(ws) == r);
                    }
                } else {
                    assert(ws[i] == w);
                    assert(inline_tags_of(ws)[r.len() as int] == t);
                }
            }
        }
    }
}

/// The target of a wikilink is all of the link's text before its first
/// `|`, trimmed of white space: `p` is the first position of a `|`, or the
/// length when there is none.
pub proof fn lemma_link_target_before_pipe(inner: Seq<char>, p: int)
    requires
        0 <= p <= inner.len(),
        forall|i: int| 0 <= i < p ==> #[trigger] inner[i] != '|',
        p < inner.len() ==> inner[p] == '|',
    ensures
        link_target(inner) == trim_ws(inner.subrange(0, p)),
{
    let q = lemma_prefix_until_shape(inner, CharSet::Pipe);
    if q < p {
        assert(inner[q] == '|');
    }
    if p < q {
        assert(!in_set(CharSet::Pipe, inner[p]));
    }
}

/// A text with no character of `set` followed by one that is: the prefix
/// before the first character of `set` is the text.
proof fn lemma_prefix_until_stops_at(x: Seq<char>, y: Seq<char>, set: CharSet)
    requires
        forall|i: int| 0 <= i < x.len() ==> !in_set(set, #[trigger] x[i]),
        y.len() > 0,
        in_set(set, y[0]),
    ensures
        prefix_until(x + y, set) == x,
{
    let p = lemma_prefix_until_shape(x + y, set);
    if p < x.len() {
        assert((x + y)[p] == x[p]);
    }
    if p > x.len() {
        assert((x + y)[x.len() as int] == y[0]);
    }
    assert((x + y).subrange(0, x.len() as int) =~= x);
}

/// A single wikilink `[[x]]` whose text holds no `]` and no `|` gives its
/// whole text, trimmed: `[[x/y]]` links to `x/y`.
pub proof fn lemma_single_wikilink(x: Seq<char>)
    requires
        forall|i: int| 0 <= i < x.len() ==> #[trigger] x[i] != ']' && x[i] != '|',
        trim_ws(x).len() > 0,
    ensures
        wikilinks(seq!['[', '['] + x + seq![']', ']']) == seq![trim_ws(x)],
{
    let s = seq!['[', '['] + x + seq![']', ']'];
    let body = s.subrange(2, s.len() as int);
    assert(body =~= x + seq![']', ']']);
    assert forall|i: int| 0 <= i < x.len() implies !in_set(CharSet::CloseBracket, #[trigger] x[i]) by {}
    lemma_prefix_until_stops_at(x, seq![']', ']'], CharSet::CloseBracket);
    assert forall|i: int| 0 <= i < x.len() implies #[trigger] x[i] != '|' by {}
    lemma_link_target_before_pipe(x, x.len() as int);
    assert(x.subrange(0, x.len() as int) =~= x);
    let rest = body.subrange(x.len() as int + 1, body.len() as int);
    assert(rest =~= seq![']']);
    assert(wikilinks(rest) =~= Seq::<Seq<char>>::empty());
    assert(s[0] == '[' && s[1] == '[');
    assert(seq![trim_ws(x)] + Seq::<Seq<char>>::empty() =~= seq![trim_ws(x)]);
}

/// Text that holds a character of `set` ends its prefix before that
/// character.
proof fn lemma_prefix_until_stops(x: Seq<char>, set: CharSet)
    requires
        x.len() > 0,
        in_set(set, x.last()),
    ensures
        prefix_until(x, set).len() < x.len(),
    decreases x.len(),
{
    if !in_set(set, x[0]) {
        assert(x.len() >= 2);
        assert(x.drop_first().last() == x.last());
        lemma_prefix_until_stops(x.drop_first(), set);
    }
}

/// Text after the first character of `set` does not change the prefix
/// before it.
proof fn lemma_prefix_until_concat(x: Seq<char>, y: Seq<char>, set: CharSet)
    requires
        prefix_until(x, set).len() < x.len(),
    ensures
        prefix_until(x + y, set) == prefix_until(x, set),
    decreases x.len(),
{
    assert((x + y)[0] == x[0]);
    if !in_set(set, x[0]) {
        assert((x + y).drop_first() =~= x.drop_first() + y);
        lemma_prefix_until_concat(x.drop_first(), y, set);
    }
}

/// Joining a text that leaves no wikilink open (it is empty or ends with
/// `]`) to any text joins their wikilinks: the links of `a + b` are those of
/// `a` followed by those of `b`.
pub proof fn lemma_wikilinks_concat(a: Seq<char>, b: Seq<char>)
    requires
        a.len() == 0 || a.last() == ']',
    ensures
        wikilinks(a + b) == wikilinks(a) + wikilinks(b),
    decreases a.len(),
{
    let s = a + b;
    if a.len() == 0 {
        assert(s =~= b);
        assert(wikilinks(a) + wikilinks(b) =~= wikilinks(b));
    } else if a.len() == 1 {
        assert(s[0] == ']');
        if s.len() < 2 {
            assert(b.len() == 0);
            assert(wikilinks(a) + wikilinks(b) =~= Seq::<Seq<char>>::empty());
        } else {
            assert(s.drop_first() =~= b);
            assert(wikilinks(a) + wikilinks(b) =~= wikilinks(b));
        }
    } else {
        assert(s[0] == a[0] && s[1] == a[1]);
        if a[0] == '[' && a[1] == '[' {
            assert(a.len() >= 3);
            let a2 = a.subrange(2, a.len() as int);
            let body = s.subrange(2, s.len() as int);
            assert(body =~= a2 + b);
            assert(a2.last() == a.last());
            lemma_prefix_until_stops(a2, CharSet::CloseBracket);
            lemma_prefix_until_concat(a2, b, CharSet::CloseBracket);
            let inner = prefix_until(a2, CharSet::CloseBracket);
            let a3 = a2.subrange(inner.len() as int + 1, a2.len() as int);
            assert(body.subrange(inner.len() as int + 1, body.len() as int) =~= a3 + b);
            assert(a3.len() == 0 || a3.last() == a.last());
            lemma_wikilinks_concat(a3, b);
            let t = link_target(inner);
            let found: Seq<Seq<char>> = if t.len() > 0 {
                seq![t]
            } else {
                Seq::empty()
            };
            assert(wikilinks(a) == found + wikilinks(a3));
            assert(wikilinks(s) == found + wikilinks(a3 + b));
            assert(found + (wikilinks(a3) + wikilinks(b)) =~= (found + wikilinks(a3)) + wikilinks(b));
        } else {
            let a1 = a.drop_first();
            assert(s.drop_first() =~= a1 + b);
            assert(a1.last() == a.last());
            lemma_wikilinks_concat(a1, b);
        }
    }
}

/// A front matter tag as written in a list: trimmed of white space, then of
/// `"` and then of `'`.
pub open spec fn clean_fm_tag(t: Seq<char>) -> Seq<char> {
    trim_set(trim_set(trim_ws(t), CharSet::DoubleQuote), CharSet::SingleQuote)
}

/// The non-empty cleaned tags of the comma-separated pieces `ps`.
pub open spec fn fm_tags_of(ps: Seq<Seq<char>>) -> Seq<Seq<char>>
    decreases ps.len(),
{
    if ps.len() == 0 {
        Seq::empty()
    } else {
        let r = fm_tags_of(ps.drop_last());
        let t = clean_fm_tag(ps.last());
        if t.len() > 0 {
            r.push(t)
        } else {
            r
        }
    }
}

/// The tags that the `tags` key of the front matter lists: its value without
/// enclosing `[`/`]`, split at commas.
pub open spec fn frontmatter_tags(fm: Map<Seq<char>, Seq<char>>) -> Seq<Seq<char>> {
    if fm.contains_key(seq!['t', 'a', 'g', 's']) {
        fm_tags_of(
            split_set(trim_set(fm[seq!['t', 'a', 'g', 's']], CharSet::Brackets), CharSet::Comma),
        )
    } else {
        Seq::empty()
    }
}

/// The tag of a `#word`: without its leading `#`s, then trimmed of every
/// character that is not a letter, a digit, `-` or `_`.
pub open spec fn inline_tag(w: Seq<char>) -> Seq<char> {
    trim_set(trim_start_set(w, CharSet::Hash), CharSet::NonTagChar)
}

/// The non-empty tags of the words of `ws` that start with `#` and are
/// longer than `#`.
pub open spec fn inline_tags_of(ws: Seq<Seq<char>>) -> Seq<Seq<char>>
    decreases ws.len(),
{
    if ws.len() == 0 {
        Seq::empty()
    } else {
        let r = inline_tags_of(ws.drop_last());
        let w = ws.last();
        if w.len() > 1 && w[0] == '#' && inline_tag(w).len() > 0 {
            r.push(inline_tag(w))
        } else {
            r
        }
    }
}

/// Every tag a note names, with repeats: the front matter tags, then the
/// inline `#tags` of the body.
pub open spec fn raw_tags(text: Seq<char>, fm: Map<Seq<char>, Seq<char>>) -> Seq<Seq<char>> {
    frontmatter_tags(fm) + inline_tags_of(words(text))
}

/// The tags of a note, from its front matter and its inline `#tags`, sorted
/// and without repeats.
pub fn extract_tags(text: &str, fm: &Frontmatter) -> (tags: Vec<String>)
    ensures
        is_tag_list(views(tags@), text@, fm@),
{
    let mut set: Vec<Vec<char>> = Vec::new();
    let ghost mut seen: Seq<Seq<char>> = Seq::empty();
    let key = "tags";
    proof {
        reveal_strlit("tags");
        assert(key@ =~= seq!['t', 'a', 'g', 's']);
    }
    match fm.get(key) {
        Some(value) => {
            let v = to_chars(value.as_str());
            let (a, b) = trim_range(&v, 0, v.len(), CharSet::Brackets);
            let parts = split_ranges(&v, a, b, CharSet::Comma);
            proof {
                assert(v@.subrange(0, v@.len() as int) =~= v@);
            }
            let mut i: usize = 0;
            while i < parts.len()
                invariant
                    0 <= i <= parts.len(),
                    a <= b <= v@.len(),
                    ranges_within(parts@, a as int, b as int),
                    strictly_sorted(cviews(set@)),
                    seen == fm_tags_of(pieces(v@, parts@).take(i as int)),
                    forall|t: Seq<char>| #[trigger] cviews(set@).contains(t) <==> seen.contains(t),
                decreases parts.len() - i,
            {
                let (lo, hi) = parts[i];
                proof {
                    assert(a <= parts@[i as int].0 <= parts@[i as int].1 <= b);
                    let ps = pieces(v@, parts@);
                    assert(ps.take(i as int + 1).drop_last() =~= ps.take(i as int));
                    assert(ps.take(i as int + 1).last() == v@.subrange(lo as int, hi as int));
                }
                let (a1, b1) = trim_range(&v, lo, hi, CharSet::Whitespace);
                let (a2, b2) = trim_range(&v, a1, b1, CharSet::DoubleQuote);
                let (a3, b3) = trim_range(&v, a2, b2, CharSet::SingleQuote);
                let ghost t = v@.subrange(a3 as int, b3 as int);
                if a3 < b3 {
                    let w = copy_range(&v, a3, b3);
                    insert_sorted(&mut set, w);
                    proof {
                        let old_seen = seen;
                        seen = seen.push(t);
                        assert forall|x: Seq<char>| #[trigger] seen.contains(x) <==> (
                        old_seen.contains(x) || x == t) by {
                            if seen.contains(x) {
                                let k = choose|k: int| 0 <= k < seen.len() && seen[k] == x;
                                if k < seen.len() - 1 {
                                    assert(old_seen[k] == x);
                                }
                            }
                            if old_seen.contains(x) {
                                let k = choose|k: int| 0 <= k < old_seen.len() && old_seen[k] == x;
                                assert(seen[k] == x);
                            }
                            if x == t {
                                assert(seen[seen.len() - 1] == x);
                            }
                        }
                    }
                }
                i = i + 1;
            }
            proof {
                assert(pieces(v@, parts@).take(parts.len() as int) =~= pieces(v@, parts@));
            }
        },
        None => {},
    }
    let ghost fm_seen = seen;
    proof {
        assert(fm_seen == frontmatter_tags(fm@));
    }
    let v = to_chars(text);
    let ws = word_ranges(&v, 0, v.len());
    proof {
        assert(v@.subrange(0, v@.len() as int) =~= v@);
    }
    let ghost mut inl: Seq<Seq<char>> = Seq::empty();
    let mut j: usize = 0;
    while j < ws.len()
        invariant
            0 <= j <= ws.len(),
            ranges_within(ws@, 0, v@.len() as int),
            forall|q: int| 0 <= q < ws@.len() ==> (#[trigger] ws@[q]).0 < ws@[q].1,
            pieces(v@, ws@) == words(v@),
            strictly_sorted(cviews(set@)),
            inl == inline_tags_of(pieces(v@, ws@).take(j as int)),
            seen == fm_seen + inl,
            forall|t: Seq<char>| #[trigger] cviews(set@).contains(t) <==> seen.contains(t),
        decreases ws.len() - j,
    {
        let (lo, hi) = ws[j];
        proof {
            assert(0 <= ws@[j as int].0 <= ws@[j as int].1 <= v@.len());
            assert(ws@[j as int].0 < ws@[j as int].1);
            let ps = pieces(v@, ws@);
            assert(ps.take(j as int + 1).drop_last() =~= ps.take(j as int));
            assert(ps.take(j as int + 1).last() == v@.subrange(lo as int, hi as int));
        }
        if hi - lo > 1 && v[lo] == '#' {
            let a1 = trim_start_index(&v, lo, hi, CharSet::Hash);
            let (a2, b2) = trim_range(&v, a1, hi, CharSet::NonTagChar);
            if a2 < b2 {
                let ghost t = v@.subrange(a2 as int, b2 as int);
                let w = copy_range(&v, a2, b2);
                insert_sorted(&mut set, w);
                proof {
                    let old_seen = seen;
                    inl = inl.push(t);
                    seen = fm_seen + inl;
                    assert(seen =~= old_seen.push(t));
                    assert forall|x: Seq<char>| #[trigger] seen.contains(x) <==> (
                    old_seen.contains(x) || x == t) by {
                        if seen.contains(x) {
                            let k = choose|k: int| 0 <= k < seen.len() && seen[k] == x;
                            if k < seen.len() - 1 {
                                assert(old_seen[k] == x);
                            }
                        }
                        if old_seen.contains(x) {
                            let k = choose|k: int| 0 <= k < old_seen.len() && old_seen[k] == x;
                            assert(seen[k] == x);
                        }
                        if x == t {
                            assert(seen[seen.len() - 1] == x);
                        }
                    }
                }
            }
        }
        j = j + 1;
    }
    proof {
        assert(pieces(v@, ws@).take(ws.len() as int) =~= pieces(v@, ws@));
        assert(seen == raw_tags(text@, fm@));
    }
    strings_of(&set)
}


/// `tags` is what `extract_tags` gives for `text` and `fm`: the tags the
/// note names, sorted, without repeats.
pub open spec fn is_tag_list(tags: Seq<Seq<char>>, text: Seq<char>, fm: Map<Seq<char>, Seq<char>>) -> bool {
    &&& strictly_sorted(tags)
    &&& forall|t: Seq<char>| #[trigger] tags.contains(t) <==> raw_tags(text, fm).contains(t)
}

proof fn lemma_inline_tags_concat(x: Seq<Seq<char>>, y: Seq<Seq<char>>)
    ensures
        inline_tags_of(x + y) == inline_tags_of(x) + inline_tags_of(y),
    decreases y.len(),
{
    if y.len() == 0 {
        assert(x + y =~= x);
        assert(inline_tags_of(x) + inline_tags_of(y) =~= inline_tags_of(x));
    } else {
        assert((x + y).drop_last() =~= x + y.drop_last());
        assert((x + y).last() == y.last());
        lemma_inline_tags_concat(x, y.drop_last());
        let w = y.last();
        if w.len() > 1 && w[0] == '#' && inline_tag(w).len() > 0 {
            assert((inline_tags_of(x) + inline_tags_of(y.drop_last())).push(inline_tag(w)) =~= inline_tags_of(
                x,
            ) + inline_tags_of(y.drop_last()).push(inline_tag(w)));
        }
    }
}

/// The tags of two texts joined by a space are the tags of both: the note
/// names a tag exactly when one of the two texts does.
pub proof fn lemma_raw_tags_joined(a: Seq<char>, b: Seq<char>, fm: Map<Seq<char>, Seq<char>>)
    ensures
        forall|t: Seq<char>|
            #[trigger] raw_tags(a + seq![' '] + b, fm).contains(t) <==> (raw_tags(a, fm).contains(t)
                || raw_tags(b, fm).contains(t)),
{
    assert(is_ws(' '));
    lemma_words_concat(a, ' ', b);
    lemma_inline_tags_concat(words(a), words(b));
    let f = frontmatter_tags(fm);
    let ia = inline_tags_of(words(a));
    let ib = inline_tags_of(words(b));
    assert(raw_tags(a + seq![' '] + b, fm) =~= f + (ia + ib));
    assert forall|t: Seq<char>|
        #[trigger] raw_tags(a + seq![' '] + b, fm).contains(t) <==> (raw_tags(a, fm).contains(t)
            || raw_tags(b, fm).contains(t)) by {
        let j = f + (ia + ib);
        if j.contains(t) {
            let k = choose|k: int| 0 <= k < j.len() && j[k] == t;
            if k < f.len() {
                assert((f + ia)[k] == t);
            } else if k < f.len() + ia.len() {
                assert((f + ia)[k] == t);
            } else {
                assert((f + ib)[k - ia.len()] == t);
            }
        }
        if (f + ia).contains(t) {
            let k = choose|k: int| 0 <= k < (f + ia).len() && (f + ia)[k] == t;
            assert(j[k] == t);
        }
        if (f + ib).contains(t) {
            let k = choose|k: int| 0 <= k < (f + ib).len() && (f + ib)[k] == t;
            if k < f.len() {
                assert(j[k] == t);
            } else {
                assert(j[k + ia.len()] == t);
            }
        }
    }
}

/// The tags of two texts joined by a space are the sorted union of the tags
/// of each: the list has no repeats, is sorted, and holds exactly the tags of
/// either text; a sorted list without repeats is fixed by its members
/// (`lemma_sorted_lists_equal`).
pub proof fn lemma_tags_of_joined_text(
    a: Seq<char>,
    b: Seq<char>,
    fm: Map<Seq<char>, Seq<char>>,
    ta: Seq<Seq<char>>,
    tb: Seq<Seq<char>>,
    tab: Seq<Seq<char>>,
)
    requires
        is_tag_list(ta, a, fm),
        is_tag_list(tb, b, fm),
        is_tag_list(tab, a + seq![' '] + b, fm),
    ensures
        strictly_sorted(tab),
        forall|t: Seq<char>| #[trigger] tab.contains(t) <==> (ta.contains(t) || tb.contains(t)),
{
    lemma_raw_tags_joined(a, b, fm);
    assert forall|t: Seq<char>| #[trigger] tab.contains(t) <==> (ta.contains(t) || tb.contains(t)) by {
        assert(tab.contains(t) <==> raw_tags(a + seq![' '] + b, fm).contains(t));
        assert(ta.contains(t) <==> raw_tags(a, fm).contains(t));
        assert(tb.contains(t) <==> raw_tags(b, fm).contains(t));
    }
}

/// The tags of a note depend on its front matter only through the `tags`
/// entry: two front matters that agree on it give the same tags.
pub proof fn lemma_tags_depend_on_tags_entry(
    text: Seq<char>,
    fm1: Map<Seq<char>, Seq<char>>,
    fm2: Map<Seq<char>, Seq<char>>,
    t1: Seq<Seq<char>>,
    t2: Seq<Seq<char>>,
)
    requires
        fm1.contains_key(seq!['t', 'a', 'g', 's']) == fm2.contains_key(seq!['t', 'a', 'g', 's']),
        fm1.contains_key(seq!['t', 'a', 'g', 's']) ==> fm1[seq!['t', 'a', 'g', 's']] == fm2[seq![
            't',
            'a',
            'g',
            's',
        ]],
        is_tag_list(t1, text, fm1),
        is_tag_list(t2, text, fm2),
    ensures
        raw_tags(text, fm1) == raw_tags(text, fm2),
        t1 == t2,
{
    assert(frontmatter_tags(fm1) == frontmatter_tags(fm2));
    assert forall|t: Seq<char>| t1.contains(t) <==> t2.contains(t) by {
        assert(t1.contains(t) <==> raw_tags(text, fm1).contains(t));
        assert(t2.contains(t) <==> raw_tags(text, fm2).contains(t));
    }
    lemma_sorted_lists_equal(t1, t2);
}

/// A Markdown event as far as the plain text of a note needs it.
#[derive(Debug, PartialEq, Eq)]
pub enum MdEvent {
    /// A run of text.
    Text(String),
    /// A soft line break.
    SoftBreak,
    /// A hard line break.
    HardBreak,
    /// The start of a code block.
    CodeBlockStart,
    /// The end of a code block.
    CodeBlockEnd,
    /// Any other event.
    Other,
}

/// The view of an `MdEvent`.
pub enum MdEventView {
    Text(Seq<char>),
    SoftBreak,
    HardBreak,
    CodeBlockStart,
    CodeBlockEnd,
    Other,
}

impl View for MdEvent {
    type V = MdEventView;

    open spec fn view(&self) -> MdEventView {
        match self {
            MdEvent::Text(t) => MdEventView::Text(t@),
            MdEvent::SoftBreak => MdEventView::SoftBreak,
            MdEvent::HardBreak => MdEventView::HardBreak,
            MdEvent::CodeBlockStart => MdEventView::CodeBlockStart,
            MdEvent::CodeBlockEnd => MdEventView::CodeBlockEnd,
            MdEvent::Other => MdEventView::Other,
        }
    }
}

/// The views of a sequence of events.
pub open spec fn event_views(evs: Seq<MdEvent>) -> Seq<MdEventView> {
    evs.map_values(|e: MdEvent| e@)
}

/// The events that `pulldown_cmark` reads from a Markdown text.
pub uninterp spec fn spec_markdown_events(md: Seq<char>) -> Seq<MdEventView>;

/// Runs `pulldown_cmark::Parser` over `md` and keeps, of each event, what the
/// plain text needs: text with its content, breaks, and the start and end of
/// code blocks. The contract names the result.
#[verifier::external_body]
pub(crate) fn markdown_events(md: &str) -> (evs: Vec<MdEvent>)
    ensures
        event_views(evs@) == spec_markdown_events(md@),
{
    let mut out = Vec::new();
    for ev in Parser::new(md) {
        out.push(match ev {
            Event::Text(t) => MdEvent::Text(t.to_string()),
            Event::SoftBreak => MdEvent::SoftBreak,
            Event::HardBreak => MdEvent::HardBreak,
            Event::Start(Tag::CodeBlock(_)) => MdEvent::CodeBlockStart,
            Event::End(TagEnd::CodeBlock) => MdEvent::CodeBlockEnd,
            _ => MdEvent::Other,
        });
    }
    out
}

/// The text gathered from `evs` and whether the last of them left a code
/// block open: outside code blocks each text is followed by a space, and
/// every line break becomes `\n`.
pub open spec fn plain_state(evs: Seq<MdEventView>) -> (Seq<char>, bool)
    decreases evs.len(),
{
    if evs.len() == 0 {
        (Seq::empty(), false)
    } else {
        let (acc, in_code) = plain_state(evs.drop_last());
        match evs.last() {
            MdEventView::Text(t) => if in_code {
                (acc, in_code)
            } else {
                (acc + t.push(' '), in_code)
            },
            MdEventView::SoftBreak => (acc.push('\n'), in_code),
            MdEventView::HardBreak => (acc.push('\n'), in_code),
            MdEventView::CodeBlockStart => (acc, true),
            MdEventView::CodeBlockEnd => (acc, false),
            MdEventView::Other => (acc, in_code),
        }
    }
}

/// The plain text of a sequence of events, trimmed.
pub open spec fn plain_text(evs: Seq<MdEventView>) -> Seq<char> {
    trim_ws(plain_state(evs).0)
}

/// The plain text of Markdown events: the text outside code blocks, and the
/// line breaks.
pub fn plain_text_of_events(events: &Vec<MdEvent>) -> (r: String)
    ensures
        r@ == plain_text(event_views(events@)),
{
    let mut acc: Vec<char> = Vec::new();
    let mut in_code = false;
    let mut i: usize = 0;
    while i < events.len()
        invariant
            0 <= i <= events.len(),
            (acc@, in_code) == plain_state(event_views(events@).take(i as int)),
        decreases events.len() - i,
    {
        proof {
            let evs = event_views(events@);
            assert(evs.take(i as int + 1).drop_last() =~= evs.take(i as int));
            assert(evs.take(i as int + 1).last() == events@[i as int]@);
        }
        match &events[i] {
            MdEvent::Text(t) => {
                if !in_code {
                    let tc = to_chars(t.as_str());
                    let ghost before = acc@;
                    let mut k: usize = 0;
                    while k < tc.len()
                        invariant
                            0 <= k <= tc.len(),
                            acc@ == before + tc@.take(k as int),
                        decreases tc.len() - k,
                    {
                        acc.push(tc[k]);
                        proof {
                            assert(tc@.take(k as int + 1) =~= tc@.take(k as int).push(tc@[k as int]));
                        }
                        k = k + 1;
                    }
                    acc.push(' ');
                    proof {
                        assert(tc@.take(tc.len() as int) =~= tc@);
                        assert(acc@ =~= before + t@.push(' '));
                    }
                }
            },
            MdEvent::SoftBreak => {
                acc.push('\n');
            },
            MdEvent::HardBreak => {
                acc.push('\n');
            },
            MdEvent::CodeBlockStart => {
                in_code = true;
            },
            MdEvent::CodeBlockEnd => {
                in_code = false;
            },
            MdEvent::Other => {},
        }
        i = i + 1;
    }
    proof {
        assert(event_views(events@).take(events.len() as int) =~= event_views(events@));
    }
    let (a, b) = trim_range(&acc, 0, acc.len(), CharSet::Whitespace);
    proof {
        assert(acc@.subrange(0, acc@.len() as int) =~= acc@);
    }
    string_from_range(&acc, a, b)
}

/// The plain text of a Markdown document (`pulldown_cmark` events, code
/// blocks left out).
pub fn markdown_to_plain(md: &str) -> (r: String)
    ensures
        r@ == plain_text(spec_markdown_events(md@)),
{
    let events = markdown_events(md);
    plain_text_of_events(&events)
}

/// The chunks that start at word `start` and every `step` words after it
/// (`0 < step <= size`): each joins at most `size` words with single spaces,
/// and the last reaches the final word.
pub open spec fn windows(ws: Seq<Seq<char>>, size: int, step: int, start: int) -> Seq<Seq<char>>
    decreases ws.len() - start,
{
    if step <= 0 || step > size || start < 0 || start >= ws.len() {
        Seq::empty()
    } else {
        let end = if start + size < ws.len() {
            start + size
        } else {
            ws.len() as int
        };
        let c = join(ws.subrange(start, end), ' ');
        if end >= ws.len() {
            seq![c]
        } else {
            seq![c] + windows(ws, size, step, start + step)
        }
    }
}

/// What `chunk_text` returns: no chunk for a text without words, the whole
/// text's words joined when there are at most `size` of them, and otherwise
/// windows of `size` words that overlap by `overlap` words.
pub open spec fn chunks_of(text: Seq<char>, size: int, overlap: int) -> Seq<Seq<char>> {
    let ws = words(text);
    if ws.len() == 0 {
        Seq::empty()
    } else if ws.len() <= size {
        seq![join(ws, ' ')]
    } else {
        windows(ws, size, size - overlap, 0)
    }
}

/// Joins the words `ws[s..e]` of `v` with single spaces.
fn join_words(v: &Vec<char>, ws: &Vec<(usize, usize)>, s: usize, e: usize) -> (r: String)
    requires
        s <= e <= ws.len(),
        ranges_within(ws@, 0, v@.len() as int),
    ensures
        r@ == join(pieces(v@, ws@).subrange(s as int, e as int), ' '),
{
    let ghost ps = pieces(v@, ws@);
    let mut acc: Vec<char> = Vec::new();
    let mut j = s;
    proof {
        assert(ps.subrange(s as int, s as int) =~= Seq::<Seq<char>>::empty());
    }
    while j < e
        invariant
            s <= j <= e <= ws.len(),
            ranges_within(ws@, 0, v@.len() as int),
            ps == pieces(v@, ws@),
            acc@ == join(ps.subrange(s as int, j as int), ' '),
        decreases e - j,
    {
        let (lo, hi) = ws[j];
        proof {
            assert(0 <= ws@[j as int].0 <= ws@[j as int].1 <= v@.len());
        }
        let ghost before = acc@;
        if j > s {
            acc.push(' ');
        }
        let ghost mid = acc@;
        let mut k = lo;
        while k < hi
            invariant
                lo <= k <= hi <= v@.len(),
                acc@ == mid + v@.subrange(lo as int, k as int),
            decreases hi - k,
        {
            acc.push(v[k]);
            proof {
                assert(v@.subrange(lo as int, k as int + 1) =~= v@.subrange(lo as int, k as int).push(
                    v@[k as int],
                ));
            }
            k = k + 1;
        }
        proof {
            let q = ps.subrange(s as int, j as int + 1);
            assert(q.drop_last() =~= ps.subrange(s as int, j as int));
            assert(q.last() == v@.subrange(lo as int, hi as int));
            if j > s {
                assert(acc@ =~= before.push(' ') + q.last());
            } else {
                assert(q.len() == 1);
                assert(acc@ =~= q[0]);
            }
        }
        j = j + 1;
    }
    string_from_range(&acc, 0, acc.len())
        // the whole accumulated text
}

/// Splits plain text into chunks of `chunk_size` words that overlap by
/// `overlap` words.
pub fn chunk_text(text: &str, chunk_size: usize, overlap: usize) -> (chunks: Vec<String>)
    requires
        words(text@).len() <= chunk_size || overlap < chunk_size,
    ensures
        views(chunks@) == chunks_of(text@, chunk_size as int, overlap as int),
{
    let v = to_chars(text);
    let ws = word_ranges(&v, 0, v.len());
    proof {
        assert(v@.subrange(0, v@.len() as int) =~= v@);
        assert(pieces(v@, ws@).subrange(0, ws@.len() as int) =~= pieces(v@, ws@));
    }
    let n = ws.len();
    let mut chunks: Vec<String> = Vec::new();
    if n == 0 {
        return chunks;
    }
    if n <= chunk_size {
        let c = join_words(&v, &ws, 0, n);
        chunks.push(c);
        proof {
            assert(views(chunks@) =~= seq![c@]);
        }
        return chunks;
    }
    let step = chunk_size - overlap;
    let ghost ps = pieces(v@, ws@);
    let mut start: usize = 0;
    loop
        invariant_except_break
            0 <= start < n,
            n == ws@.len(),
            ps == pieces(v@, ws@),
            ps == words(text@),
            n > chunk_size,
            step == chunk_size - overlap,
            0 < step,
            ranges_within(ws@, 0, v@.len() as int),
            views(chunks@) + windows(ps, chunk_size as int, step as int, start as int) == windows(
                ps,
                chunk_size as int,
                step as int,
                0,
            ),
        ensures
            views(chunks@) == windows(ps, chunk_size as int, step as int, 0),
        decreases n - start,
    {
        let end = if chunk_size >= n - start {
            n
        } else {
            start + chunk_size
        };
        let c = join_words(&v, &ws, start, end);
        let ghost old_chunks = chunks@;
        chunks.push(c);
        proof {
            assert(views(chunks@) =~= views(old_chunks).push(c@));
        }
        if end >= n {
            proof {
                assert(windows(ps, chunk_size as int, step as int, start as int) =~= seq![c@]);
                assert(views(chunks@) =~= views(old_chunks) + seq![c@]);
            }
            break;
        }
        proof {
            let rest = windows(ps, chunk_size as int, step as int, start as int + step);
            assert(windows(ps, chunk_size as int, step as int, start as int) == seq![c@] + rest);
            assert(views(chunks@) + rest =~= views(old_chunks) + (seq![c@] + rest));
        }
        start = start + step;
    }
    chunks
}


/// A parsed note: where it lies, its body, and what is read out of it.
pub struct ParsedNote {
    /// The file stem of the note's path.
    pub title: String,
    /// The note's path.
    pub path: String,
    /// The body: the text after the front matter.
    pub content: String,
    /// The plain text of the body.
    pub plain_text: String,
    /// The wikilink targets of the body.
    pub links: Vec<String>,
    /// The tags of the note, sorted, without repeats.
    pub tags: Vec<String>,
    /// The front matter.
    pub frontmatter: Frontmatter,
    /// The chunks of plain text that are embedded.
    pub chunks: Vec<String>,
}

/// The title of the note at `path`: the stem of its file name, or
/// `Untitled` when it has none.
pub open spec fn note_title(path: Seq<char>) -> Seq<char> {
    match spec_file_stem(path) {
        Some(s) => s,
        None => seq!['U', 'n', 't', 'i', 't', 'l', 'e', 'd'],
    }
}

/// The number of words in a chunk of an embedded note.
pub const CHUNK_WORDS: usize = 512;

/// The number of words that neighbouring chunks share.
pub const CHUNK_OVERLAP: usize = 64;

/// Reads a note from the text `raw` of the file at `path`.
pub fn parse_markdown(path: &str, raw: &str) -> (note: ParsedNote)
    ensures
        note.title@ == note_title(path@),
        note.path@ == path@,
        (note.frontmatter@, note.content@) == frontmatter_of(raw@),
        views(note.links@) == wikilinks(note.content@),
        strictly_sorted(views(note.tags@)),
        forall|t: Seq<char>|
            #[trigger] views(note.tags@).contains(t) <==> raw_tags(
                note.content@,
                note.frontmatter@,
            ).contains(t),
        note.plain_text@ == plain_text(spec_markdown_events(note.content@)),
        views(note.chunks@) == chunks_of(note.plain_text@, 512, 64),
{
    let title = match path_file_stem(path) {
        Some(s) => s,
        None => {
            let u = "Untitled";
            proof {
                reveal_strlit("Untitled");
            }
            u.to_owned()
        },
    };
    let (frontmatter, body) = extract_frontmatter(raw);
    let links = extract_wikilinks(body.as_str());
    let tags = extract_tags(body.as_str(), &frontmatter);
    let plain = markdown_to_plain(body.as_str());
    let chunks = chunk_text(plain.as_str(), CHUNK_WORDS, CHUNK_OVERLAP);
    ParsedNote {
        title,
        path: path.to_owned(),
        content: body,
        plain_text: plain,
        links,
        tags,
        frontmatter,
        chunks,
    }
}

/// `c` joins at most `size` consecutive words of `ws`, from word `s` to word
/// `e`.
pub open spec fn joins_words(ws: Seq<Seq<char>>, size: int, c: Seq<char>, s: int, e: int) -> bool {
    0 <= s < e <= ws.len() && e - s <= size && c == join(ws.subrange(s, e), ' ')
}

/// `c` joins at most `size` consecutive words of `ws`.
pub open spec fn is_window_of(ws: Seq<Seq<char>>, size: int, c: Seq<char>) -> bool {
    exists|s: int, e: int| #[trigger] joins_words(ws, size, c, s, e)
}

/// `c` joins at most `size` consecutive words of `ws`, ending at the last.
pub open spec fn is_last_window_of(ws: Seq<Seq<char>>, size: int, c: Seq<char>) -> bool {
    exists|s: int| #[trigger] joins_words(ws, size, c, s, ws.len() as int)
}

/// `c` joins at most `size` consecutive words of `ws`, starting at the first.
pub open spec fn is_first_window_of(ws: Seq<Seq<char>>, size: int, c: Seq<char>) -> bool {
    exists|e: int| #[trigger] joins_words(ws, size, c, 0, e)
}

/// Every member of `cs` joins at most `size` consecutive words of `ws`.
pub open spec fn all_windows_of(ws: Seq<Seq<char>>, size: int, cs: Seq<Seq<char>>) -> bool {
    forall|k: int| 0 <= k < cs.len() ==> is_window_of(ws, size, #[trigger] cs[k])
}

proof fn lemma_windows_shape(ws: Seq<Seq<char>>, size: int, step: int, start: int)
    requires
        0 < step <= size,
        0 <= start < ws.len(),
    ensures
        windows(ws, size, step, start).len() > 0,
        joins_words(
            ws,
            size,
            windows(ws, size, step, start)[0],
            start,
            if start + size < ws.len() { start + size } else { ws.len() as int },
        ),
        is_last_window_of(ws, size, windows(ws, size, step, start)[windows(ws, size, step, start).len() - 1]),
        all_windows_of(ws, size, windows(ws, size, step, start)),
    decreases ws.len() - start,
{
    let end = if start + size < ws.len() { start + size } else { ws.len() as int };
    let c = join(ws.subrange(start, end), ' ');
    let r = windows(ws, size, step, start);
    assert(joins_words(ws, size, c, start, end));
    if end >= ws.len() {
        assert(r == seq![c]);
        assert(joins_words(ws, size, r[0], start, ws.len() as int));
        assert forall|k: int| 0 <= k < r.len() implies is_window_of(ws, size, #[trigger] r[k]) by {
            assert(joins_words(ws, size, r[k], start, end));
        }
    } else {
        lemma_windows_shape(ws, size, step, start + step);
        let rest = windows(ws, size, step, start + step);
        assert(r == seq![c] + rest);
        assert(r[r.len() - 1] == rest[rest.len() - 1]);
        assert forall|k: int| 0 <= k < r.len() implies is_window_of(ws, size, #[trigger] r[k]) by {
            if k == 0 {
                assert(joins_words(ws, size, r[k], start, end));
            } else {
                assert(r[k] == rest[k - 1]);
                assert(is_window_of(ws, size, rest[k - 1]));
            }
        }
    }
}

/// Word `w` of `ws` lies in one of the chunks `cs`.
pub open spec fn word_in_some_chunk(ws: Seq<Seq<char>>, size: int, cs: Seq<Seq<char>>, w: int) -> bool {
    exists|k: int, s: int, e: int|
        0 <= k < cs.len() && #[trigger] joins_words(ws, size, cs[k], s, e) && s <= w < e
}

proof fn lemma_windows_cover(ws: Seq<Seq<char>>, size: int, step: int, start: int, w: int)
    requires
        0 < step <= size,
        0 <= start <= w < ws.len(),
    ensures
        word_in_some_chunk(ws, size, windows(ws, size, step, start), w),
    decreases ws.len() - start,
{
    let end = if start + size < ws.len() { start + size } else { ws.len() as int };
    let c = join(ws.subrange(start, end), ' ');
    let r = windows(ws, size, step, start);
    assert(r[0] == c);
    if w < end {
        assert(joins_words(ws, size, r[0], start, end));
    } else {
        lemma_windows_cover(ws, size, step, start + step, w);
        let rest = windows(ws, size, step, start + step);
        assert(r == seq![c] + rest);
        let (k, s, e) = choose|k: int, s: int, e: int|
            0 <= k < rest.len() && #[trigger] joins_words(ws, size, rest[k], s, e) && s <= w < e;
        assert(r[k + 1] == rest[k]);
        assert(joins_words(ws, size, r[k + 1], s, e));
    }
}

/// The first word of chunk `k` when chunks start every `step` words.
pub open spec fn chunk_start(k: int, step: int) -> int {
    k * step
}

/// One past the last word of a chunk that starts at word `s`.
pub open spec fn chunk_end(s: int, size: int, n: int) -> int {
    if s + size < n { s + size } else { n }
}

proof fn lemma_window_positions(ws: Seq<Seq<char>>, size: int, step: int, start: int, k: int)
    requires
        0 < step <= size,
        0 <= start < ws.len(),
        0 <= k < windows(ws, size, step, start).len(),
    ensures
        joins_words(
            ws,
            size,
            windows(ws, size, step, start)[k],
            start + k * step,
            chunk_end(start + k * step, size, ws.len() as int),
        ),
    decreases ws.len() - start,
{
    let end = chunk_end(start, size, ws.len() as int);
    let c = join(ws.subrange(start, end), ' ');
    let r = windows(ws, size, step, start);
    if k == 0 {
        assert(r[0] == c);
    } else {
        let rest = windows(ws, size, step, start + step);
        assert(r == seq![c] + rest);
        assert(r[k] == rest[k - 1]);
        lemma_window_positions(ws, size, step, start + step, k - 1);
        assert(start + step + (k - 1) * step == start + k * step) by (nonlinear_arith);
    }
}

/// Where the chunks of a text lie when it has more words than a chunk
/// holds: chunk `k` joins the words from `k * (chunk_size - overlap)` on,
/// `chunk_size` of them or as many as are left; so neighbouring chunks share
/// `overlap` words.
pub proof fn lemma_chunk_positions(text: Seq<char>, chunk_size: int, overlap: int, k: int)
    requires
        0 <= overlap < chunk_size,
        words(text).len() > chunk_size,
        0 <= k < chunks_of(text, chunk_size, overlap).len(),
    ensures
        joins_words(
            words(text),
            chunk_size,
            chunks_of(text, chunk_size, overlap)[k],
            chunk_start(k, chunk_size - overlap),
            chunk_end(chunk_start(k, chunk_size - overlap), chunk_size, words(text).len() as int),
        ),
{
    lemma_window_positions(words(text), chunk_size, chunk_size - overlap, 0, k);
}

/// No word of a text is left out of its chunks: every word lies in a chunk.
pub proof fn lemma_chunks_keep_every_word(text: Seq<char>, chunk_size: int, overlap: int)
    requires
        0 <= overlap < chunk_size,
    ensures
        forall|w: int|
            0 <= w < words(text).len() ==> word_in_some_chunk(
                words(text),
                chunk_size,
                chunks_of(text, chunk_size, overlap),
                w,
            ),
{
    let ws = words(text);
    let n = ws.len() as int;
    let cs = chunks_of(text, chunk_size, overlap);
    assert forall|w: int| 0 <= w < n implies word_in_some_chunk(ws, chunk_size, cs, w) by {
        if n <= chunk_size {
            assert(ws.subrange(0, n) =~= ws);
            assert(joins_words(ws, chunk_size, cs[0], 0, n));
        } else {
            lemma_windows_cover(ws, chunk_size, chunk_size - overlap, 0, w);
        }
    }
}

/// The chunks of a text cover its words: each chunk joins at most
/// `chunk_size` consecutive words with single spaces, the first chunk starts
/// at the first word, and the last chunk ends at the last word.
pub proof fn lemma_chunks_cover_words(text: Seq<char>, chunk_size: int, overlap: int)
    requires
        0 <= overlap < chunk_size,
        words(text).len() > 0,
    ensures
        chunks_of(text, chunk_size, overlap).len() > 0,
        is_first_window_of(words(text), chunk_size, chunks_of(text, chunk_size, overlap)[0]),
        is_last_window_of(
            words(text),
            chunk_size,
            chunks_of(text, chunk_size, overlap)[chunks_of(text, chunk_size, overlap).len() - 1],
        ),
        all_windows_of(words(text), chunk_size, chunks_of(text, chunk_size, overlap)),
{
    let ws = words(text);
    let n = ws.len() as int;
    let cs = chunks_of(text, chunk_size, overlap);
    if ws.len() <= chunk_size {
        assert(ws.subrange(0, n) =~= ws);
        assert(cs == seq![join(ws, ' ')]);
        assert(joins_words(ws, chunk_size, cs[0], 0, n));
        assert forall|k: int| 0 <= k < cs.len() implies is_window_of(ws, chunk_size, #[trigger] cs[k]) by {
            assert(joins_words(ws, chunk_size, cs[k], 0, n));
        }
    } else {
        let step = chunk_size - overlap;
        lemma_windows_shape(ws, chunk_size, step, 0);
        assert(cs == windows(ws, chunk_size, step, 0));
        let end = if chunk_size < ws.len() { chunk_size } else { n };
        assert(joins_words(ws, chunk_size, cs[0], 0, end));
    }
}

} // verus!
