//! Character-level text handling: the white space, trimming and splitting
//! rules of `str`, stated over `Seq<char>` and carried out on `Vec<char>`.
use vstd::prelude::*;

verus! {

/// The characters with the Unicode `White_Space` property: the set that
/// `char::is_whitespace` tests, and so the set that `str::trim` and
/// `str::split_whitespace` work with.
pub open spec fn is_ws(c: char) -> bool {
    let u = c as u32;
    ||| 0x9 <= u <= 0xD
    ||| u == 0x20
    ||| u == 0x85
    ||| u == 0xA0
    ||| u == 0x1680
    ||| 0x2000 <= u <= 0x200A
    ||| u == 0x2028
    ||| u == 0x2029
    ||| u == 0x202F
    ||| u == 0x205F
    ||| u == 0x3000
}

/// An ASCII letter or digit.
pub open spec fn is_ascii_alnum(c: char) -> bool {
    ||| 'a' <= c <= 'z'
    ||| 'A' <= c <= 'Z'
    ||| '0' <= c <= '9'
}

/// Whether a character that is not ASCII is alphabetic or numeric in the
/// Unicode tables of the standard library.
pub uninterp spec fn spec_unicode_alnum(c: char) -> bool;

/// What `char::is_alphanumeric` answers.
pub open spec fn is_alnum(c: char) -> bool {
    if (c as u32) < 0x80 {
        is_ascii_alnum(c)
    } else {
        spec_unicode_alnum(c)
    }
}

/// Calls `char::is_alphanumeric`. Its documentation defines it as
/// `is_alphabetic() || is_numeric()`, that is the Unicode `Alphabetic` property
/// or a general category of numbers; among ASCII characters these are exactly
/// the letters and digits. The contract states that, and leaves the answer on
/// the other characters to the name `spec_unicode_alnum`.
#[verifier::external_body]
pub(crate) fn char_is_alphanumeric(c: char) -> (r: bool)
    ensures
        r == (if (c as u32) < 0x80 {
            is_ascii_alnum(c)
        } else {
            spec_unicode_alnum(c)
        }),
{
    c.is_alphanumeric()
}

/// A set of characters that a trim or a split works with.
#[derive(Clone, Copy, PartialEq, Eq, Debug)]
pub enum CharSet {
    /// Unicode white space.
    Whitespace,
    /// `[` and `]`.
    Brackets,
    /// `"`.
    DoubleQuote,
    /// `'`.
    SingleQuote,
    /// `#`.
    Hash,
    /// Every character but a letter, a digit, `-` and `_`.
    NonTagChar,
    /// `,`.
    Comma,
    /// `|`.
    Pipe,
    /// `:`.
    Colon,
    /// `\n`.
    Newline,
    /// `]`.
    CloseBracket,
    /// `/`.
    Slash,
}

/// Whether `c` belongs to `set`.
pub open spec fn in_set(set: CharSet, c: char) -> bool {
    match set {
        CharSet::Whitespace => is_ws(c),
        CharSet::Brackets => c == '[' || c == ']',
        CharSet::DoubleQuote => c == '"',
        CharSet::SingleQuote => c == '\'',
        CharSet::Hash => c == '#',
        CharSet::NonTagChar => !is_alnum(c) && c != '-' && c != '_',
        CharSet::Comma => c == ',',
        CharSet::Pipe => c == '|',
        CharSet::Colon => c == ':',
        CharSet::Newline => c == '\n',
        CharSet::CloseBracket => c == ']',
        CharSet::Slash => c == '/',
    }
}

/// Tests whether `c` is Unicode white space.
pub fn is_whitespace(c: char) -> (r: bool)
    ensures
        r == is_ws(c),
{
    let u = c as u32;
    (0x9 <= u && u <= 0xD) || u == 0x20 || u == 0x85 || u == 0xA0 || u == 0x1680 || (0x2000 <= u
        && u <= 0x200A) || u == 0x2028 || u == 0x2029 || u == 0x202F || u == 0x205F || u == 0x3000
}

impl CharSet {
    /// Tests whether `c` belongs to the set.
    pub fn contains(&self, c: char) -> (r: bool)
        ensures
            r == in_set(*self, c),
    {
        match self {
            CharSet::Whitespace => is_whitespace(c),
            CharSet::Brackets => c == '[' || c == ']',
            CharSet::DoubleQuote => c == '"',
            CharSet::SingleQuote => c == '\'',
            CharSet::Hash => c == '#',
            CharSet::NonTagChar => !char_is_alphanumeric(c) && c != '-' && c != '_',
            CharSet::Comma => c == ',',
            CharSet::Pipe => c == '|',
            CharSet::Colon => c == ':',
            CharSet::Newline => c == '\n',
            CharSet::CloseBracket => c == ']',
            CharSet::Slash => c == '/',
        }
    }
}

/// `s` without its leading characters from `set`.
pub open spec fn trim_start_set(s: Seq<char>, set: CharSet) -> Seq<char>
    decreases s.len(),
{
    if s.len() > 0 && in_set(set, s[0]) {
        trim_start_set(s.drop_first(), set)
    } else {
        s
    }
}

/// `s` without its trailing characters from `set`.
pub open spec fn trim_end_set(s: Seq<char>, set: CharSet) -> Seq<char>
    decreases s.len(),
{
    if s.len() > 0 && in_set(set, s.last()) {
        trim_end_set(s.drop_last(), set)
    } else {
        s
    }
}

/// `s` without its leading and trailing characters from `set`
/// (`str::trim_matches`; with white space, `str::trim`).
pub open spec fn trim_set(s: Seq<char>, set: CharSet) -> Seq<char> {
    trim_end_set(trim_start_set(s, set), set)
}

/// Trimming `set` from the start leaves `s[h..]`: every character before
/// `h` is in `set`, and the one at `h`, if any, is not.
pub proof fn lemma_trim_start_shape(s: Seq<char>, set: CharSet) -> (h: int)
    ensures
        0 <= h <= s.len(),
        trim_start_set(s, set) == s.subrange(h, s.len() as int),
        forall|i: int| 0 <= i < h ==> in_set(set, #[trigger] s[i]),
        h < s.len() ==> !in_set(set, s[h]),
    decreases s.len(),
{
    if s.len() > 0 && in_set(set, s[0]) {
        let q = lemma_trim_start_shape(s.drop_first(), set);
        assert(s.drop_first().subrange(q, s.drop_first().len() as int) =~= s.subrange(q + 1, s.len() as int));
        assert forall|i: int| 0 <= i < q + 1 implies in_set(set, #[trigger] s[i]) by {
            if i > 0 {
                assert(s[i] == s.drop_first()[i - 1]);
            }
        }
        if q + 1 < s.len() {
            assert(s[q + 1] == s.drop_first()[q]);
        }
        q + 1
    } else {
        assert(s.subrange(0, s.len() as int) =~= s);
        0
    }
}

proof fn lemma_trim_end_shape(s: Seq<char>, set: CharSet) -> (b: int)
    ensures
        0 <= b <= s.len(),
        trim_end_set(s, set) == s.subrange(0, b),
        forall|i: int| b <= i < s.len() ==> in_set(set, #[trigger] s[i]),
        b > 0 ==> !in_set(set, s[b - 1]),
    decreases s.len(),
{
    if s.len() > 0 && in_set(set, s.last()) {
        let q = lemma_trim_end_shape(s.drop_last(), set);
        assert(s.drop_last().subrange(0, q) =~= s.subrange(0, q));
        assert forall|i: int| q <= i < s.len() implies in_set(set, #[trigger] s[i]) by {
            if i < s.len() - 1 {
                assert(s[i] == s.drop_last()[i]);
            }
        }
        if q > 0 {
            assert(s[q - 1] == s.drop_last()[q - 1]);
        }
        q
    } else {
        assert(s.subrange(0, s.len() as int) =~= s);
        s.len() as int
    }
}

/// Trimming `set` from both ends leaves `s[a..b]`: every character before
/// `a` or from `b` on is in `set`, and a non-empty result starts and ends
/// with characters outside `set`.
pub proof fn lemma_trim_set_shape(s: Seq<char>, set: CharSet) -> (r: (int, int))
    ensures
        0 <= r.0 <= r.1 <= s.len(),
        trim_set(s, set) == s.subrange(r.0, r.1),
        forall|i: int| 0 <= i < r.0 ==> in_set(set, #[trigger] s[i]),
        forall|i: int| r.1 <= i < s.len() ==> in_set(set, #[trigger] s[i]),
        r.0 < r.1 ==> !in_set(set, s[r.0]) && !in_set(set, s[r.1 - 1]),
{
    let h = lemma_trim_start_shape(s, set);
    let u = s.subrange(h, s.len() as int);
    let b = lemma_trim_end_shape(u, set);
    assert(u.subrange(0, b) =~= s.subrange(h, h + b));
    assert forall|i: int| h + b <= i < s.len() implies in_set(set, #[trigger] s[i]) by {
        assert(s[i] == u[i - h]);
    }
    if b > 0 {
        assert(s[h + b - 1] == u[b - 1]);
    }
    (h, h + b)
}

/// `s` with leading and trailing white space removed (`str::trim`).
pub open spec fn trim_ws(s: Seq<char>) -> Seq<char> {
    trim_set(s, CharSet::Whitespace)
}

/// The pieces of `s` between the characters of `set`, empty pieces included
/// (`str::split` with a character pattern): one piece more than `s` holds
/// separators.
pub open spec fn split_set(s: Seq<char>, set: CharSet) -> Seq<Seq<char>>
    decreases s.len(),
{
    if s.len() == 0 {
        seq![Seq::empty()]
    } else {
        let init = split_set(s.drop_last(), set);
        if in_set(set, s.last()) {
            init.push(Seq::empty())
        } else {
            init.update(init.len() - 1, init.last().push(s.last()))
        }
    }
}

/// The non-empty members of `ps`, in order.
pub open spec fn non_empty(ps: Seq<Seq<char>>) -> Seq<Seq<char>>
    decreases ps.len(),
{
    if ps.len() == 0 {
        ps
    } else if ps.last().len() > 0 {
        non_empty(ps.drop_last()).push(ps.last())
    } else {
        non_empty(ps.drop_last())
    }
}

/// The words of `s`: its maximal runs of characters that are not white space
/// (`str::split_whitespace`).
pub open spec fn words(s: Seq<char>) -> Seq<Seq<char>> {
    non_empty(split_set(s, CharSet::Whitespace))
}

proof fn lemma_split_set_nonempty(s: Seq<char>, set: CharSet)
    ensures
        split_set(s, set).len() >= 1,
    decreases s.len(),
{
    if s.len() > 0 {
        lemma_split_set_nonempty(s.drop_last(), set);
    }
}

/// Splitting two texts joined by a separator gives the pieces of each.
pub proof fn lemma_split_set_concat(a: Seq<char>, c: char, b: Seq<char>, set: CharSet)
    requires
        in_set(set, c),
    ensures
        split_set(a + seq![c] + b, set) == split_set(a, set) + split_set(b, set),
    decreases b.len(),
{
    let s = a + seq![c] + b;
    if b.len() == 0 {
        assert(s.drop_last() =~= a);
        assert(s.last() == c);
        assert(split_set(a, set).push(Seq::empty()) =~= split_set(a, set) + split_set(b, set));
    } else {
        assert(s.drop_last() =~= a + seq![c] + b.drop_last());
        assert(s.last() == b.last());
        lemma_split_set_concat(a, c, b.drop_last(), set);
        lemma_split_set_nonempty(b.drop_last(), set);
        let x = split_set(a, set);
        let y = split_set(b.drop_last(), set);
        if in_set(set, b.last()) {
            assert((x + y).push(Seq::empty()) =~= x + y.push(Seq::empty()));
        } else {
            assert((x + y).update((x + y).len() - 1, (x + y).last().push(b.last())) =~= x + y.update(
                y.len() - 1,
                y.last().push(b.last()),
            ));
        }
    }
}

/// Keeping the non-empty pieces of two lists keeps those of each.
pub proof fn lemma_non_empty_concat(x: Seq<Seq<char>>, y: Seq<Seq<char>>)
    ensures
        non_empty(x + y) == non_empty(x) + non_empty(y),
    decreases y.len(),
{
    if y.len() == 0 {
        assert(x + y =~= x);
        assert(non_empty(x) + non_empty(y) =~= non_empty(x));
    } else {
        assert((x + y).drop_last() =~= x + y.drop_last());
        assert((x + y).last() == y.last());
        lemma_non_empty_concat(x, y.drop_last());
        if y.last().len() > 0 {
            assert((non_empty(x) + non_empty(y.drop_last())).push(y.last()) =~= non_empty(x) + non_empty(
                y.drop_last(),
            ).push(y.last()));
        }
    }
}

/// The words of two texts joined by white space are the words of the first
/// followed by those of the second.
pub proof fn lemma_words_concat(a: Seq<char>, c: char, b: Seq<char>)
    requires
        is_ws(c),
    ensures
        words(a + seq![c] + b) == words(a) + words(b),
{
    lemma_split_set_concat(a, c, b, CharSet::Whitespace);
    lemma_non_empty_concat(split_set(a, CharSet::Whitespace), split_set(b, CharSet::Whitespace));
}

/// The characters of `s` before the first character from `set`, or all of
/// `s` when it holds none.
pub open spec fn prefix_until(s: Seq<char>, set: CharSet) -> Seq<char>
    decreases s.len(),
{
    if s.len() == 0 || in_set(set, s[0]) {
        Seq::empty()
    } else {
        seq![s[0]] + prefix_until(s.drop_first(), set)
    }
}

/// The prefix before the first character of `set` is `s[..p]`, where `p`
/// is the first position holding such a character, or the length.
pub proof fn lemma_prefix_until_shape(s: Seq<char>, set: CharSet) -> (p: int)
    ensures
        0 <= p <= s.len(),
        prefix_until(s, set) == s.subrange(0, p),
        forall|i: int| 0 <= i < p ==> !in_set(set, #[trigger] s[i]),
        p < s.len() ==> in_set(set, s[p]),
    decreases s.len(),
{
    if s.len() == 0 || in_set(set, s[0]) {
        assert(prefix_until(s, set) =~= s.subrange(0, 0));
        0
    } else {
        let q = lemma_prefix_until_shape(s.drop_first(), set);
        assert(prefix_until(s, set) =~= s.subrange(0, q + 1));
        assert forall|i: int| 0 <= i < q + 1 implies !in_set(set, #[trigger] s[i]) by {
            if i > 0 {
                assert(s[i] == s.drop_first()[i - 1]);
            }
        }
        if q + 1 < s.len() {
            assert(s[q + 1] == s.drop_first()[q]);
        }
        q + 1
    }
}

/// `str::split_once` with a character from `set`: the text before its first
/// occurrence and the text after it, or `None` when there is none.
pub open spec fn split_once(s: Seq<char>, set: CharSet) -> Option<(Seq<char>, Seq<char>)> {
    let p = prefix_until(s, set);
    if p.len() < s.len() {
        Some((p, s.subrange(p.len() as int + 1, s.len() as int)))
    } else {
        None
    }
}

/// The pieces `ps` joined with one `sep` between neighbours
/// (`[&str]::join`).
pub open spec fn join(ps: Seq<Seq<char>>, sep: char) -> Seq<char>
    decreases ps.len(),
{
    if ps.len() == 0 {
        Seq::empty()
    } else if ps.len() == 1 {
        ps[0]
    } else {
        join(ps.drop_last(), sep).push(sep) + ps.last()
    }
}

/// Lexicographic order of character sequences by code point, which is the
/// order of `String` and `str` (byte order of UTF-8).
pub open spec fn lex_lt(a: Seq<char>, b: Seq<char>) -> bool
    decreases a.len(),
{
    if b.len() == 0 {
        false
    } else if a.len() == 0 {
        true
    } else if a[0] < b[0] {
        true
    } else if a[0] == b[0] {
        lex_lt(a.drop_first(), b.drop_first())
    } else {
        false
    }
}

/// The views of a sequence of strings.
pub open spec fn views(v: Seq<String>) -> Seq<Seq<char>> {
    v.map_values(|s: String| s@)
}

/// The views of a sequence of character vectors.
pub open spec fn cviews(v: Seq<Vec<char>>) -> Seq<Seq<char>> {
    v.map_values(|s: Vec<char>| s@)
}

/// The pieces of `s` that a sequence of ranges picks out.
pub open spec fn pieces(s: Seq<char>, rs: Seq<(usize, usize)>) -> Seq<Seq<char>> {
    rs.map_values(|r: (usize, usize)| s.subrange(r.0 as int, r.1 as int))
}

/// Every range lies within `lo..hi` of `s`.
pub open spec fn ranges_within(rs: Seq<(usize, usize)>, lo: int, hi: int) -> bool {
    forall|i: int| 0 <= i < rs.len() ==> lo <= (#[trigger] rs[i]).0 && rs[i].0 <= rs[i].1 && rs[i].1 <= hi
}

// ---------------------------------------------------------------------------
// Lemmas
// ---------------------------------------------------------------------------

proof fn lemma_trim_start_step(s: Seq<char>, set: CharSet, a: int, hi: int)
    requires
        0 <= a < hi <= s.len(),
        in_set(set, s[a]),
    ensures
        trim_start_set(s.subrange(a, hi), set) == trim_start_set(s.subrange(a + 1, hi), set),
{
    assert(s.subrange(a, hi).drop_first() =~= s.subrange(a + 1, hi));
}

proof fn lemma_trim_end_step(s: Seq<char>, set: CharSet, lo: int, b: int)
    requires
        0 <= lo < b <= s.len(),
        in_set(set, s[b - 1]),
    ensures
        trim_end_set(s.subrange(lo, b), set) == trim_end_set(s.subrange(lo, b - 1), set),
{
    assert(s.subrange(lo, b).drop_last() =~= s.subrange(lo, b - 1));
}

/// The split of any text has at least one piece.
pub proof fn lemma_split_nonempty(s: Seq<char>, set: CharSet)
    ensures
        split_set(s, set).len() >= 1,
    decreases s.len(),
{
    if s.len() > 0 {
        lemma_split_nonempty(s.drop_last(), set);
    }
}

/// Filtering distributes over concatenation.
pub proof fn lemma_non_empty_append(a: Seq<Seq<char>>, b: Seq<Seq<char>>)
    ensures
        non_empty(a + b) == non_empty(a) + non_empty(b),
    decreases b.len(),
{
    if b.len() == 0 {
        assert(a + b =~= a);
        assert(non_empty(b) =~= b);
    } else {
        lemma_non_empty_append(a, b.drop_last());
        assert((a + b).drop_last() =~= a + b.drop_last());
        assert((a + b).last() == b.last());
    }
}

/// Every member of `non_empty(ps)` is a non-empty member of `ps`.
pub proof fn lemma_non_empty_members(ps: Seq<Seq<char>>)
    ensures
        forall|i: int|
            0 <= i < non_empty(ps).len() ==> #[trigger] non_empty(ps)[i].len() > 0
                && ps.contains(non_empty(ps)[i]),
    decreases ps.len(),
{
    if ps.len() > 0 {
        lemma_non_empty_members(ps.drop_last());
        let r = non_empty(ps.drop_last());
        assert forall|i: int| 0 <= i < non_empty(ps).len() implies #[trigger] non_empty(
            ps,
        )[i].len() > 0 && ps.contains(non_empty(ps)[i]) by {
            if i < r.len() {
                assert(non_empty(ps)[i] == r[i]);
                assert(ps.drop_last().contains(r[i]));
                let k = choose|k: int| 0 <= k < ps.drop_last().len() && ps.drop_last()[k] == r[i];
                assert(ps[k] == r[i]);
            } else {
                assert(non_empty(ps)[i] == ps.last());
                assert(ps[ps.len() - 1] == ps.last());
            }
        }
    }
}

/// `prefix_until` is the prefix up to the first character from the set.
pub proof fn lemma_prefix_until(s: Seq<char>, set: CharSet, k: int)
    requires
        0 <= k <= s.len(),
        forall|j: int| 0 <= j < k ==> !in_set(set, #[trigger] s[j]),
        k == s.len() || in_set(set, s[k]),
    ensures
        prefix_until(s, set) == s.take(k),
    decreases s.len(),
{
    if s.len() == 0 {
        assert(s.take(k) =~= Seq::<char>::empty());
    } else if k == 0 {
        assert(s.take(k) =~= Seq::<char>::empty());
    } else {
        let t = s.drop_first();
        assert forall|j: int| 0 <= j < k - 1 implies !in_set(set, #[trigger] t[j]) by {
            assert(t[j] == s[j + 1]);
        }
        lemma_prefix_until(t, set, k - 1);
        assert(seq![s[0]] + t.take(k - 1) =~= s.take(k));
    }
}

/// `lex_lt` is irreflexive.
pub proof fn lemma_lex_irrefl(a: Seq<char>)
    ensures
        !lex_lt(a, a),
    decreases a.len(),
{
    if a.len() > 0 {
        lemma_lex_irrefl(a.drop_first());
    }
}

/// `lex_lt` is transitive.
pub proof fn lemma_lex_trans(a: Seq<char>, b: Seq<char>, c: Seq<char>)
    requires
        lex_lt(a, b),
        lex_lt(b, c),
    ensures
        lex_lt(a, c),
    decreases a.len(),
{
    if a.len() > 0 && b.len() > 0 && c.len() > 0 {
        if a[0] == b[0] && b[0] == c[0] {
            lemma_lex_trans(a.drop_first(), b.drop_first(), c.drop_first());
        }
    }
}

/// `lex_lt` is total on distinct sequences and asymmetric.
pub proof fn lemma_lex_total(a: Seq<char>, b: Seq<char>)
    ensures
        a != b ==> (lex_lt(a, b) || lex_lt(b, a)),
        !(lex_lt(a, b) && lex_lt(b, a)),
    decreases a.len(),
{
    if a.len() > 0 && b.len() > 0 {
        lemma_lex_total(a.drop_first(), b.drop_first());
        if a[0] == b[0] && a.drop_first() == b.drop_first() {
            assert(a =~= seq![a[0]] + a.drop_first());
            assert(b =~= seq![b[0]] + b.drop_first());
        }

    } else if a.len() == 0 && b.len() == 0 {
        assert(a =~= b);
    }
}

/// `lex_lt` is unchanged by dropping an equal prefix.
proof fn lemma_lex_skip(a: Seq<char>, b: Seq<char>, i: int)
    requires
        0 <= i <= a.len(),
        i <= b.len(),
        a.take(i) == b.take(i),
    ensures
        lex_lt(a, b) == lex_lt(a.skip(i), b.skip(i)),
    decreases i,
{
    if i > 0 {
        assert(a[0] == a.take(i)[0]);
        assert(b[0] == b.take(i)[0]);
        assert(a.drop_first().take(i - 1) =~= a.take(i).drop_first());
        assert(b.drop_first().take(i - 1) =~= b.take(i).drop_first());
        lemma_lex_skip(a.drop_first(), b.drop_first(), i - 1);
        assert(a.drop_first().skip(i - 1) =~= a.skip(i));
        assert(b.drop_first().skip(i - 1) =~= b.skip(i));
    } else {
        assert(a.skip(0) =~= a);
        assert(b.skip(0) =~= b);
    }
}

// ---------------------------------------------------------------------------
// Executable helpers
// ---------------------------------------------------------------------------

/// The characters of `s`, in order.
pub fn to_chars(s: &str) -> (v: Vec<char>)
    ensures
        v@ == s@,
{
    broadcast use vstd::string::group_string_axioms;

    let mut v: Vec<char> = Vec::new();
    for c in it: s.chars()
        invariant
            it.seq() == s@,
            v@ == it.seq().take(it.index() as int),
    {
        v.push(c);
    }
    v
}

/// Builds the string made of `v[lo..hi]` (`String: FromIterator<char>`).
#[verifier::external_body]
pub(crate) fn string_from_range(v: &Vec<char>, lo: usize, hi: usize) -> (s: String)
    requires
        lo <= hi <= v.len(),
    ensures
        s@ == v@.subrange(lo as int, hi as int),
{
    v[lo..hi].iter().collect()
}

/// A copy of `v[lo..hi]`.
pub fn copy_range(v: &Vec<char>, lo: usize, hi: usize) -> (r: Vec<char>)
    requires
        lo <= hi <= v.len(),
    ensures
        r@ == v@.subrange(lo as int, hi as int),
{
    let mut r: Vec<char> = Vec::new();
    let mut i = lo;
    while i < hi
        invariant
            lo <= i <= hi <= v.len(),
            r@ == v@.subrange(lo as int, i as int),
        decreases hi - i,
    {
        r.push(v[i]);
        i = i + 1;
    }
    r
}

/// The range of `v[lo..hi]` that is left after trimming characters from `set`
/// at both ends.
pub fn trim_range(v: &Vec<char>, lo: usize, hi: usize, set: CharSet) -> (r: (usize, usize))
    requires
        lo <= hi <= v.len(),
    ensures
        lo <= r.0 <= r.1 <= hi,
        v@.subrange(r.0 as int, r.1 as int) == trim_set(v@.subrange(lo as int, hi as int), set),
{
    let a = trim_start_index(v, lo, hi, set);
    let mut b = hi;
    while b > a && set.contains(v[b - 1])
        invariant
            lo <= a <= b <= hi <= v.len(),
            trim_end_set(v@.subrange(a as int, hi as int), set) == trim_end_set(
                v@.subrange(a as int, b as int),
                set,
            ),
        decreases b,
    {
        proof {
            lemma_trim_end_step(v@, set, a as int, b as int);
        }
        b = b - 1;
    }
    (a, b)
}

/// The first index of `v[lo..hi]` after its leading characters from `set`.
pub fn trim_start_index(v: &Vec<char>, lo: usize, hi: usize, set: CharSet) -> (a: usize)
    requires
        lo <= hi <= v.len(),
    ensures
        lo <= a <= hi,
        v@.subrange(a as int, hi as int) == trim_start_set(v@.subrange(lo as int, hi as int), set),
{
    let mut a = lo;
    while a < hi && set.contains(v[a])
        invariant
            lo <= a <= hi <= v.len(),
            trim_start_set(v@.subrange(lo as int, hi as int), set) == trim_start_set(
                v@.subrange(a as int, hi as int),
                set,
            ),
        decreases hi - a,
    {
        proof {
            lemma_trim_start_step(v@, set, a as int, hi as int);
        }
        a = a + 1;
    }
    a
}

/// The index of the first character from `set` in `v[lo..hi]`, or `hi`.
pub fn find_in_set(v: &Vec<char>, lo: usize, hi: usize, set: CharSet) -> (k: usize)
    requires
        lo <= hi <= v.len(),
    ensures
        lo <= k <= hi,
        forall|j: int| lo <= j < k ==> !in_set(set, #[trigger] v@[j]),
        k < hi ==> in_set(set, v@[k as int]),
        prefix_until(v@.subrange(lo as int, hi as int), set) == v@.subrange(lo as int, k as int),
{
    let mut k = lo;
    while k < hi && !set.contains(v[k])
        invariant
            lo <= k <= hi <= v.len(),
            forall|j: int| lo <= j < k ==> !in_set(set, #[trigger] v@[j]),
        decreases hi - k,
    {
        k = k + 1;
    }
    proof {
        let s = v@.subrange(lo as int, hi as int);
        assert forall|j: int| 0 <= j < k - lo implies !in_set(set, #[trigger] s[j]) by {
            assert(s[j] == v@[lo + j]);
        }
        lemma_prefix_until(s, set, k - lo);
        assert(s.take(k - lo) =~= v@.subrange(lo as int, k as int));
    }
    k
}

/// The ranges of the pieces of `v[lo..hi]` between characters from `set`.
pub fn split_ranges(v: &Vec<char>, lo: usize, hi: usize, set: CharSet) -> (rs: Vec<(usize, usize)>)
    requires
        lo <= hi <= v.len(),
    ensures
        ranges_within(rs@, lo as int, hi as int),
        pieces(v@, rs@) == split_set(v@.subrange(lo as int, hi as int), set),
{
    let mut rs: Vec<(usize, usize)> = Vec::new();
    let mut start = lo;
    let mut i = lo;
    proof {
        assert(v@.subrange(lo as int, lo as int) =~= Seq::<char>::empty());
        assert(pieces(v@, rs@).push(v@.subrange(start as int, i as int)) =~= split_set(
            v@.subrange(lo as int, i as int),
            set,
        ));
    }
    while i < hi
        invariant
            lo <= start <= i <= hi <= v.len(),
            ranges_within(rs@, lo as int, i as int),
            pieces(v@, rs@).push(v@.subrange(start as int, i as int)) == split_set(
                v@.subrange(lo as int, i as int),
                set,
            ),
        decreases hi - i,
    {
        let ghost old_rs = rs@;
        let ghost t = v@.subrange(lo as int, i as int + 1);
        proof {
            assert(t.drop_last() =~= v@.subrange(lo as int, i as int));
            assert(t.last() == v@[i as int]);
            lemma_split_nonempty(t.drop_last(), set);
        }
        if set.contains(v[i]) {
            rs.push((start, i));
            proof {
                assert(pieces(v@, rs@) =~= pieces(v@, old_rs).push(
                    v@.subrange(start as int, i as int),
                ));
                assert(v@.subrange(i as int + 1, i as int + 1) =~= Seq::<char>::empty());
            }
            start = i + 1;
        } else {
            proof {
                assert(v@.subrange(start as int, i as int + 1) =~= v@.subrange(
                    start as int,
                    i as int,
                ).push(v@[i as int]));
                let pre = pieces(v@, old_rs);
                let init = split_set(t.drop_last(), set);
                assert(init =~= pre.push(v@.subrange(start as int, i as int)));
                assert(pre.push(v@.subrange(start as int, i as int + 1)) =~= init.update(
                    init.len() - 1,
                    init.last().push(v@[i as int]),
                ));
            }
        }
        i = i + 1;
    }
    let ghost before = rs@;
    rs.push((start, hi));
    proof {
        assert(pieces(v@, rs@) =~= pieces(v@, before).push(v@.subrange(start as int, hi as int)));
    }
    rs
}

/// The ranges of the words of `v[lo..hi]` (`str::split_whitespace`).
pub fn word_ranges(v: &Vec<char>, lo: usize, hi: usize) -> (rs: Vec<(usize, usize)>)
    requires
        lo <= hi <= v.len(),
    ensures
        ranges_within(rs@, lo as int, hi as int),
        forall|i: int| 0 <= i < rs@.len() ==> #[trigger] rs@[i].0 < rs@[i].1,
        pieces(v@, rs@) == words(v@.subrange(lo as int, hi as int)),
{
    let all = split_ranges(v, lo, hi, CharSet::Whitespace);
    let mut rs: Vec<(usize, usize)> = Vec::new();
    let mut k: usize = 0;
    while k < all.len()
        invariant
            0 <= k <= all.len(),
            lo <= hi <= v.len(),
            ranges_within(all@, lo as int, hi as int),
            ranges_within(rs@, lo as int, hi as int),
            forall|i: int| 0 <= i < rs@.len() ==> #[trigger] rs@[i].0 < rs@[i].1,
            pieces(v@, rs@) == non_empty(pieces(v@, all@).take(k as int)),
        decreases all.len() - k,
    {
        let r = all[k];
        let ghost old_rs = rs@;
        proof {
            let ps = pieces(v@, all@);
            assert(ranges_within(all@, lo as int, hi as int));
            assert(0 <= k < all@.len());
            assert(lo <= all@[k as int].0 <= all@[k as int].1 <= hi);
            assert(ps[k as int] == v@.subrange(r.0 as int, r.1 as int));
            assert(ps.take(k as int + 1).drop_last() =~= ps.take(k as int));
            assert(ps.take(k as int + 1).last() == v@.subrange(r.0 as int, r.1 as int));
            assert(v@.subrange(r.0 as int, r.1 as int).len() == r.1 - r.0);
            assert(non_empty(ps.take(k as int + 1)) == (if r.0 < r.1 {
                non_empty(ps.take(k as int)).push(v@.subrange(r.0 as int, r.1 as int))
            } else {
                non_empty(ps.take(k as int))
            }));
        }
        if r.0 < r.1 {
            rs.push(r);
            proof {
                assert(pieces(v@, rs@) =~= pieces(v@, old_rs).push(
                    v@.subrange(r.0 as int, r.1 as int),
                ));
            }
        }
        k = k + 1;
    }
    proof {
        assert(pieces(v@, all@).take(all.len() as int) =~= pieces(v@, all@));
    }
    rs
}

/// Whether `a` comes before `b` in the order of strings.
pub fn lex_less(a: &Vec<char>, b: &Vec<char>) -> (r: bool)
    ensures
        r == lex_lt(a@, b@),
{
    let mut i: usize = 0;
    while i < a.len() && i < b.len() && a[i] == b[i]
        invariant
            0 <= i <= a.len(),
            i <= b.len(),
            a@.take(i as int) == b@.take(i as int),
        decreases a.len() - i,
    {
        proof {
            assert(a@.take(i as int + 1) =~= a@.take(i as int).push(a@[i as int]));
            assert(b@.take(i as int + 1) =~= b@.take(i as int).push(b@[i as int]));
        }
        i = i + 1;
    }
    proof {
        lemma_lex_skip(a@, b@, i as int);
        let x = a@.skip(i as int);
        let y = b@.skip(i as int);
        if x.len() > 0 && y.len() > 0 {
            assert(x[0] == a@[i as int]);
            assert(y[0] == b@[i as int]);
        }
    }
    if i == b.len() {
        false
    } else if i == a.len() {
        true
    } else {
        a[i] < b[i]
    }
}

/// Whether the sequences `a` and `b` are equal.
pub fn chars_equal(a: &Vec<char>, b: &Vec<char>) -> (r: bool)
    ensures
        r == (a@ == b@),
{
    if a.len() != b.len() {
        return false;
    }
    let mut i: usize = 0;
    while i < a.len()
        invariant
            0 <= i <= a.len(),
            a.len() == b.len(),
            forall|j: int| 0 <= j < i ==> a@[j] == b@[j],
        decreases a.len() - i,
    {
        if a[i] != b[i] {
            return false;
        }
        i = i + 1;
    }
    proof {
        assert(a@ =~= b@);
    }
    true
}

} // verus!

verus! {

/// Every earlier member of `s` comes before every later one: the order of
/// strings, with no member twice.
pub open spec fn strictly_sorted(s: Seq<Seq<char>>) -> bool {
    forall|i: int, j: int| 0 <= i < j < s.len() ==> lex_lt(#[trigger] s[i], #[trigger] s[j])
}

/// Two strictly sorted lists with the same members are equal: a sorted list
/// without repeats is fixed by its members.
pub proof fn lemma_sorted_lists_equal(s1: Seq<Seq<char>>, s2: Seq<Seq<char>>)
    requires
        strictly_sorted(s1),
        strictly_sorted(s2),
        forall|t: Seq<char>| s1.contains(t) <==> s2.contains(t),
    ensures
        s1 == s2,
    decreases s1.len() + s2.len(),
{
    if s1.len() == 0 {
        if s2.len() > 0 {
            assert(s2.contains(s2[0]));
        }
        assert(s1 =~= s2);
    } else if s2.len() == 0 {
        assert(s1.contains(s1[0]));
    } else {
        let x = s1[0];
        let y = s2[0];
        assert(s1.contains(x));
        assert(s2.contains(y));
        if x != y {
            let j = choose|j: int| 0 <= j < s2.len() && s2[j] == x;
            let i = choose|i: int| 0 <= i < s1.len() && s1[i] == y;
            assert(j > 0 && i > 0);
            assert(lex_lt(y, x));
            assert(lex_lt(x, y));
            lemma_lex_trans(x, y, x);
            lemma_lex_irrefl(x);
        }
        let r1 = s1.drop_first();
        let r2 = s2.drop_first();
        assert forall|a: int, b: int| 0 <= a < b < r1.len() implies lex_lt(#[trigger] r1[a], #[trigger] r1[b]) by {
            assert(r1[a] == s1[a + 1] && r1[b] == s1[b + 1]);
        }
        assert forall|a: int, b: int| 0 <= a < b < r2.len() implies lex_lt(#[trigger] r2[a], #[trigger] r2[b]) by {
            assert(r2[a] == s2[a + 1] && r2[b] == s2[b + 1]);
        }
        assert forall|t: Seq<char>| r1.contains(t) <==> r2.contains(t) by {
            if r1.contains(t) {
                let k = choose|k: int| 0 <= k < r1.len() && r1[k] == t;
                assert(s1[k + 1] == t);
                assert(lex_lt(x, t));
                lemma_lex_irrefl(x);
                assert(s2.contains(t));
                let m = choose|m: int| 0 <= m < s2.len() && s2[m] == t;
                assert(m != 0);
                assert(r2[m - 1] == t);
            }
            if r2.contains(t) {
                let k = choose|k: int| 0 <= k < r2.len() && r2[k] == t;
                assert(s2[k + 1] == t);
                assert(lex_lt(y, t));
                lemma_lex_irrefl(y);
                assert(s1.contains(t));
                let m = choose|m: int| 0 <= m < s1.len() && s1[m] == t;
                assert(m != 0);
                assert(r1[m - 1] == t);
            }
        }
        lemma_sorted_lists_equal(r1, r2);
        assert(s1 =~= seq![x] + r1);
        assert(s2 =~= seq![y] + r2);
    }
}

/// Adds `x` to the strictly sorted list `set`, unless it is there already.
pub fn insert_sorted(set: &mut Vec<Vec<char>>, x: Vec<char>)
    requires
        strictly_sorted(cviews(old(set)@)),
    ensures
        strictly_sorted(cviews(final(set)@)),
        forall|t: Seq<char>|
            #[trigger] cviews(final(set)@).contains(t) <==> (cviews(old(set)@).contains(t) || t
                == x@),
{
    let ghost old_v = cviews(set@);
    let mut i: usize = 0;
    while i < set.len() && lex_less(&set[i], &x)
        invariant
            0 <= i <= set@.len(),
            old_v == cviews(set@),
            strictly_sorted(old_v),
            forall|j: int| 0 <= j < i ==> lex_lt(#[trigger] old_v[j], x@),
        decreases set@.len() - i,
    {
        i = i + 1;
    }
    if i < set.len() && chars_equal(&set[i], &x) {
        proof {
            assert(old_v[i as int] == x@);
        }
        return;
    }
    proof {
        if i < set@.len() {
            lemma_lex_total(old_v[i as int], x@);
        }
    }
    set.insert(i, x);
    proof {
        let nv = cviews(set@);
        assert(nv =~= old_v.insert(i as int, x@));
        assert forall|a: int, b: int| 0 <= a < b < nv.len() implies lex_lt(
            #[trigger] nv[a],
            #[trigger] nv[b],
        ) by {
            if b < i {
                assert(nv[a] == old_v[a] && nv[b] == old_v[b]);
            } else if b == i {
                assert(nv[a] == old_v[a]);
            } else if a < i {
                assert(nv[a] == old_v[a] && nv[b] == old_v[b - 1]);
                lemma_lex_trans(old_v[a], x@, old_v[i as int]);
                if b - 1 > i {
                    lemma_lex_trans(old_v[a], old_v[i as int], old_v[b - 1]);
                }
            } else if a == i {
                assert(nv[b] == old_v[b - 1]);
                if b - 1 > i {
                    lemma_lex_trans(x@, old_v[i as int], old_v[b - 1]);
                }
            } else {
                assert(nv[a] == old_v[a - 1] && nv[b] == old_v[b - 1]);
            }
        }
        assert forall|t: Seq<char>| #[trigger] nv.contains(t) <==> (old_v.contains(t) || t
            == x@) by {
            if nv.contains(t) {
                let k = choose|k: int| 0 <= k < nv.len() && nv[k] == t;
                if k < i {
                    assert(old_v[k] == t);
                } else if k > i {
                    assert(old_v[k - 1] == t);
                }
            }
            if old_v.contains(t) {
                let k = choose|k: int| 0 <= k < old_v.len() && old_v[k] == t;
                if k < i {
                    assert(nv[k] == t);
                } else {
                    assert(nv[k + 1] == t);
                }
            }
            if t == x@ {
                assert(nv[i as int] == t);
            }
        }
    }
}

/// Strings made of character vectors.
pub fn strings_of(vs: &Vec<Vec<char>>) -> (r: Vec<String>)
    ensures
        views(r@) == cviews(vs@),
{
    let mut r: Vec<String> = Vec::new();
    let mut i: usize = 0;
    while i < vs.len()
        invariant
            0 <= i <= vs.len(),
            views(r@) == cviews(vs@).take(i as int),
        decreases vs.len() - i,
    {
        let s = string_from_range(&vs[i], 0, vs[i].len());
        proof {
            assert(vs[i as int]@.subrange(0, vs[i as int]@.len() as int) =~= vs[i as int]@);
        }
        let ghost old_r = r@;
        r.push(s);
        proof {
            assert(views(r@) =~= views(old_r).push(s@));
            assert(cviews(vs@).take(i as int + 1) =~= cviews(vs@).take(i as int).push(vs[i as int]@));
        }
        i = i + 1;
    }
    proof {
        assert(cviews(vs@).take(vs.len() as int) =~= cviews(vs@));
    }
    r
}

} // verus!

verus! {

/// The characters of `s` after its last character from `set`, or all of `s`
/// when it holds none (`str::rsplit(..).next()`).
pub open spec fn after_last(s: Seq<char>, set: CharSet) -> Seq<char>
    decreases s.len(),
{
    if s.len() == 0 {
        s
    } else if in_set(set, s.last()) {
        Seq::empty()
    } else {
        after_last(s.drop_last(), set).push(s.last())
    }
}

/// The index in `v[lo..hi]` just after its last character from `set`, or
/// `lo`.
pub fn after_last_index(v: &Vec<char>, lo: usize, hi: usize, set: CharSet) -> (b: usize)
    requires
        lo <= hi <= v.len(),
    ensures
        lo <= b <= hi,
        v@.subrange(b as int, hi as int) == after_last(v@.subrange(lo as int, hi as int), set),
{
    let mut b = hi;
    proof {
        assert(v@.subrange(hi as int, hi as int) =~= Seq::<char>::empty());
        assert(after_last(v@.subrange(lo as int, hi as int), set) =~= after_last(
            v@.subrange(lo as int, b as int),
            set,
        ) + v@.subrange(b as int, hi as int));
    }
    while b > lo && !set.contains(v[b - 1])
        invariant
            lo <= b <= hi <= v.len(),
            after_last(v@.subrange(lo as int, hi as int), set) == after_last(
                v@.subrange(lo as int, b as int),
                set,
            ) + v@.subrange(b as int, hi as int),
        decreases b,
    {
        proof {
            let s = v@.subrange(lo as int, b as int);
            assert(s.drop_last() =~= v@.subrange(lo as int, b as int - 1));
            assert(s.last() == v@[b as int - 1]);
            assert(v@.subrange(b as int - 1, hi as int) =~= seq![v@[b as int - 1]] + v@.subrange(
                b as int,
                hi as int,
            ));
            assert(after_last(s, set) + v@.subrange(b as int, hi as int) =~= after_last(
                s.drop_last(),
                set,
            ) + v@.subrange(b as int - 1, hi as int));
        }
        b = b - 1;
    }
    proof {
        let s = v@.subrange(lo as int, b as int);
        assert(after_last(s, set) =~= Seq::<char>::empty());
        assert(Seq::<char>::empty() + v@.subrange(b as int, hi as int) =~= v@.subrange(
            b as int,
            hi as int,
        ));
    }
    b
}

/// `s` in lower case, by the Unicode rules of the standard library.
pub uninterp spec fn spec_lowercase(s: Seq<char>) -> Seq<char>;

/// The lower case of an ASCII character.
pub open spec fn ascii_lower(c: char) -> char {
    if 'A' <= c <= 'Z' {
        ((c as u32) + 32) as char
    } else {
        c
    }
}

/// Every character of `s` is ASCII.
pub open spec fn all_ascii(s: Seq<char>) -> bool {
    forall|i: int| 0 <= i < s.len() ==> (#[trigger] s[i] as u32) < 0x80
}

/// Calls `str::to_lowercase`. The contract names the result, and states
/// what the Unicode mapping gives on ASCII text: each of `A`..`Z` becomes
/// its lower case letter and every other ASCII character stays.
#[verifier::external_body]
pub(crate) fn to_lowercase(s: &str) -> (r: String)
    ensures
        r@ == spec_lowercase(s@),
        all_ascii(s@) ==> r@ == s@.map_values(|c: char| ascii_lower(c)),
{
    s.to_lowercase()
}

} // verus!
