//! The file tree of a vault: folders and Markdown notes, folders first,
//! then by name ignoring case.
use vstd::prelude::*;
use crate::text::{lemma_lex_irrefl, lemma_lex_total, lemma_lex_trans, lex_less, lex_lt, spec_lowercase, to_chars, to_lowercase};

verus! {

/// A folder or a note of a vault's file tree.
#[derive(Debug)]
pub struct FileTreeNode {
    /// The file or folder name.
    pub name: String,
    /// Its path.
    pub path: String,
    /// Whether it is a folder.
    pub is_dir: bool,
    /// What a folder holds, in tree order; nothing for a note.
    pub children: Vec<FileTreeNode>,
}

/// The key a tree entry is ordered by: whether it is a folder, and its name
/// in lower case.
pub open spec fn tree_key(n: FileTreeNode) -> (bool, Seq<char>) {
    (n.is_dir, spec_lowercase(n.name@))
}

/// The keys of a list of entries.
pub open spec fn tree_keys(ns: Seq<FileTreeNode>) -> Seq<(bool, Seq<char>)> {
    ns.map_values(|n: FileTreeNode| tree_key(n))
}

/// Key `a` comes before key `b`: folders before notes, then names in string
/// order.
pub open spec fn key_before(a: (bool, Seq<char>), b: (bool, Seq<char>)) -> bool {
    (a.0 && !b.0) || (a.0 == b.0 && lex_lt(a.1, b.1))
}

/// Entry `i` comes before entry `j` in a stable sort by key: by key, and
/// entries with equal keys in their given order.
pub open spec fn comes_before(ks: Seq<(bool, Seq<char>)>, i: int, j: int) -> bool {
    key_before(ks[i], ks[j]) || (ks[i] == ks[j] && i < j)
}

/// `ord` lists each index of `ks` once, in the order of a stable sort by key.
pub open spec fn is_stable_order(ks: Seq<(bool, Seq<char>)>, ord: Seq<usize>) -> bool {
    &&& ord.len() == ks.len()
    &&& forall|a: int| 0 <= a < ord.len() ==> (#[trigger] ord[a]) < ks.len()
    &&& forall|a: int, b: int| 0 <= a < b < ord.len() ==> #[trigger] ord[a] != #[trigger] ord[b]
    &&& forall|a: int, b: int|
        0 <= a < b < ord.len() ==> comes_before(ks, #[trigger] ord[a] as int, #[trigger] ord[b] as int)
}

proof fn lemma_key_order(a: (bool, Seq<char>), b: (bool, Seq<char>), c: (bool, Seq<char>))
    ensures
        !key_before(a, a),
        key_before(a, b) && key_before(b, c) ==> key_before(a, c),
        a == b || key_before(a, b) || key_before(b, a),
        !(key_before(a, b) && key_before(b, a)),
{
    lemma_lex_irrefl(a.1);
    lemma_lex_total(a.1, b.1);
    if key_before(a, b) && key_before(b, c) && a.0 == b.0 && b.0 == c.0 {
        lemma_lex_trans(a.1, b.1, c.1);
    }
    if a.0 == b.0 && a.1 == b.1 {
        assert(a == b);
    }
}

/// Entry `p` may stand before entry `q` in a folder's listing: a note never
/// stands before a folder, and of two entries of the same kind the one whose
/// lower-cased name comes later in string order never stands first.
pub open spec fn may_precede(p: FileTreeNode, q: FileTreeNode) -> bool {
    &&& (q.is_dir ==> p.is_dir)
    &&& (p.is_dir == q.is_dir ==> !lex_lt(spec_lowercase(q.name@), spec_lowercase(p.name@)))
}

/// A stable tree order lists folders before notes, and entries of the same
/// kind, folders and notes alike, by their names in lower case.
pub proof fn lemma_tree_order_by_name(cs: Seq<FileTreeNode>, ord: Seq<usize>)
    requires
        is_stable_order(tree_keys(cs), ord),
    ensures
        forall|a: int, b: int|
            0 <= a < b < ord.len() ==> may_precede(cs[#[trigger] ord[a] as int], cs[#[trigger] ord[b] as int]),
{
    let ks = tree_keys(cs);
    assert forall|a: int, b: int| 0 <= a < b < ord.len() implies may_precede(
        cs[#[trigger] ord[a] as int],
        cs[#[trigger] ord[b] as int],
    ) by {
        let i = ord[a] as int;
        let j = ord[b] as int;
        assert(comes_before(ks, i, j));
        assert(ks[i] == tree_key(cs[i]) && ks[j] == tree_key(cs[j]));
        lemma_key_order(ks[i], ks[j], ks[i]);
        lemma_key_order(ks[j], ks[i], ks[j]);
    }
}

/// Whether key `(ad, an)` comes before key `(bd, bn)`.
fn key_less(ad: bool, an: &Vec<char>, bd: bool, bn: &Vec<char>) -> (r: bool)
    ensures
        r == key_before((ad, an@), (bd, bn@)),
{
    if ad && !bd {
        true
    } else if ad == bd {
        lex_less(an, bn)
    } else {
        false
    }
}

/// The order of a stable sort of tree entries: folders first, then by name
/// ignoring case, entries with equal keys in their given order.
pub fn child_order(children: &Vec<FileTreeNode>) -> (ord: Vec<usize>)
    ensures
        is_stable_order(tree_keys(children@), ord@),
        forall|a: int, b: int|
            0 <= a < b < ord@.len() ==> may_precede(
                children@[#[trigger] ord@[a] as int],
                children@[#[trigger] ord@[b] as int],
            ),
{
    let ghost ks = tree_keys(children@);
    let n = children.len();
    let mut names: Vec<Vec<char>> = Vec::new();
    let mut i: usize = 0;
    while i < n
        invariant
            0 <= i <= n,
            n == children@.len(),
            ks == tree_keys(children@),
            names.len() == i,
            forall|j: int| 0 <= j < i ==> (#[trigger] names@[j])@ == ks[j].1,
        decreases n - i,
    {
        let lower = to_lowercase(children[i].name.as_str());
        names.push(to_chars(lower.as_str()));
        i = i + 1;
    }
    let mut ord: Vec<usize> = Vec::new();
    let mut x: usize = 0;
    while x < n
        invariant
            0 <= x <= n,
            n == children@.len(),
            ks == tree_keys(children@),
            names.len() == n,
            forall|j: int| 0 <= j < n ==> (#[trigger] names@[j])@ == ks[j].1,
            ord.len() == x,
            forall|a: int| 0 <= a < ord.len() ==> (#[trigger] ord@[a]) < x,
            forall|a: int, b: int| 0 <= a < b < ord.len() ==> #[trigger] ord@[a] != #[trigger] ord@[b],
            forall|a: int, b: int|
                0 <= a < b < ord.len() ==> comes_before(ks, #[trigger] ord@[a] as int, #[trigger] ord@[b] as int),
        decreases n - x,
    {
        let xd = children[x].is_dir;
        let mut p: usize = 0;
        while p < ord.len() && !key_less(xd, &names[x], children[ord[p]].is_dir, &names[ord[p]])
            invariant
                0 <= p <= ord.len(),
                ord.len() == x,
                x < n,
                n == children@.len(),
                names.len() == n,
                ks == tree_keys(children@),
                xd == children@[x as int].is_dir,
                forall|j: int| 0 <= j < n ==> (#[trigger] names@[j])@ == ks[j].1,
                forall|a: int| 0 <= a < ord.len() ==> (#[trigger] ord@[a]) < x,
                forall|a: int| 0 <= a < p ==> comes_before(ks, #[trigger] ord@[a] as int, x as int),
            decreases ord.len() - p,
        {
            proof {
                let q = ord@[p as int] as int;
                assert(ks[q] == (children@[q].is_dir, names@[q]@));
                assert(ks[x as int] == (xd, names@[x as int]@));
                lemma_key_order(ks[x as int], ks[q], ks[q]);
                assert(comes_before(ks, q, x as int));
            }
            p = p + 1;
        }
        proof {
            if p < ord.len() {
                let q = ord@[p as int] as int;
                assert(ks[q] == (children@[q].is_dir, names@[q]@));
                assert(ks[x as int] == (xd, names@[x as int]@));
                assert(key_before(ks[x as int], ks[q]));
            }
        }
        let ghost old_ord = ord@;
        ord.insert(p, x);
        proof {
            assert(ord@ =~= old_ord.insert(p as int, x));
            assert forall|a: int| 0 <= a < ord.len() implies (#[trigger] ord@[a]) < x + 1 by {
                if a < p {
                    assert(ord@[a] == old_ord[a]);
                } else if a > p {
                    assert(ord@[a] == old_ord[a - 1]);
                }
            }
            assert forall|a: int, b: int| 0 <= a < b < ord.len() implies #[trigger] ord@[a] != #[trigger] ord@[b] by {
                if b < p {
                    assert(ord@[a] == old_ord[a] && ord@[b] == old_ord[b]);
                } else if b == p {
                    assert(ord@[a] == old_ord[a]);
                } else if a < p {
                    assert(ord@[a] == old_ord[a] && ord@[b] == old_ord[b - 1]);
                } else if a == p {
                    assert(ord@[b] == old_ord[b - 1]);
                } else {
                    assert(ord@[a] == old_ord[a - 1] && ord@[b] == old_ord[b - 1]);
                }
            }
            assert forall|a: int, b: int| 0 <= a < b < ord.len() implies comes_before(ks, #[trigger] ord@[a] as int, #[trigger] ord@[b] as int) by {
                if b < p {
                    assert(ord@[a] == old_ord[a] && ord@[b] == old_ord[b]);
                } else if b == p {
                    assert(ord@[a] == old_ord[a]);
                } else if a < p {
                    assert(ord@[a] == old_ord[a] && ord@[b] == old_ord[b - 1]);
                    let q1 = old_ord[a] as int;
                    let q2 = old_ord[b - 1] as int;
                    assert(comes_before(ks, q1, x as int));
                    // x comes before the entry at p, which comes before or is q2
                    let qp = old_ord[p as int] as int;
                    assert(key_before(ks[x as int], ks[qp]));
                    if b - 1 > p {
                        assert(comes_before(ks, qp, q2));
                    }
                    lemma_key_order(ks[q1], ks[x as int], ks[qp]);
                    lemma_key_order(ks[q1], ks[qp], ks[q2]);
                    lemma_key_order(ks[x as int], ks[qp], ks[q2]);
                    lemma_key_order(ks[q1], ks[x as int], ks[q2]);
                } else if a == p {
                    assert(ord@[b] == old_ord[b - 1]);
                    let q2 = old_ord[b - 1] as int;
                    let qp = old_ord[p as int] as int;
                    assert(key_before(ks[x as int], ks[qp]));
                    if b - 1 > p {
                        assert(comes_before(ks, qp, q2));
                    }
                    lemma_key_order(ks[x as int], ks[qp], ks[q2]);
                } else {
                    assert(ord@[a] == old_ord[a - 1] && ord@[b] == old_ord[b - 1]);
                }
            }
        }
        x = x + 1;
    }
    proof {
        lemma_tree_order_by_name(children@, ord@);
    }
    ord
}

/// The entries of a folder in tree order: folders first, then by name
/// ignoring case, entries with equal keys in their given order.
pub fn sort_tree_children(children: Vec<FileTreeNode>) -> (r: Vec<FileTreeNode>)
    ensures
        exists|ord: Seq<usize>|
            #![trigger is_stable_order(tree_keys(children@), ord)]
            is_stable_order(tree_keys(children@), ord) && r@.len() == ord.len() && forall|k: int|
                0 <= k < ord.len() ==> r@[k] == children@[#[trigger] ord[k] as int],
        forall|a: int, b: int| 0 <= a < b < r@.len() ==> may_precede(#[trigger] r@[a], #[trigger] r@[b]),
{
    let ord = child_order(&children);
    let ghost orig = children@;
    let n = children.len();
    let mut rest = children;
    let mut slots: Vec<Option<FileTreeNode>> = Vec::new();
    while rest.len() > 0
        invariant
            slots@.len() + rest@.len() == n,
            n == orig.len(),
            forall|j: int| 0 <= j < slots@.len() ==> #[trigger] slots@[j] == Some(orig[j]),
            forall|j: int| 0 <= j < rest@.len() ==> #[trigger] rest@[j] == orig[slots@.len() + j],
        decreases rest@.len(),
    {
        let ghost before = rest@;
        let c = rest.remove(0);
        proof {
            assert(c == orig[slots@.len() as int]);
            assert forall|j: int| 0 <= j < rest@.len() implies #[trigger] rest@[j] == orig[slots@.len() + 1 + j] by {
                assert(rest@[j] == before[j + 1]);
            }
        }
        slots.push(Some(c));
    }
    let mut r: Vec<FileTreeNode> = Vec::new();
    let mut k: usize = 0;
    while k < n
        invariant
            0 <= k <= n,
            n == orig.len(),
            is_stable_order(tree_keys(orig), ord@),
            slots@.len() == n,
            r@.len() == k,
            forall|a: int| 0 <= a < k ==> r@[a] == orig[#[trigger] ord@[a] as int],
            forall|j: int|
                0 <= j < n ==> (#[trigger] slots@[j] is Some <==> (forall|a: int| 0 <= a < k ==> ord@[a] != j)),
            forall|j: int| 0 <= j < n && #[trigger] slots@[j] is Some ==> slots@[j] == Some(orig[j]),
        decreases n - k,
    {
        let j = ord[k];
        proof {
            assert(forall|a: int| 0 <= a < k ==> ord@[a] != j);
            assert(slots@[j as int] is Some);
        }
        let ghost before = slots@;
        let s = slots.remove(j);
        slots.insert(j, None);
        proof {
            assert(slots@ =~= before.update(j as int, None));
        }
        match s {
            Some(x) => {
                r.push(x);
            },
            None => {
                proof {
                    assert(false);
                }
            },
        }
        proof {
            assert forall|q: int| 0 <= q < n implies (#[trigger] slots@[q] is Some <==> (forall|a: int|
                0 <= a < k + 1 ==> ord@[a] != q)) by {
                if q == j {
                    assert(ord@[k as int] == q);
                } else {
                    assert(slots@[q] == before[q]);
                    if !(forall|a: int| 0 <= a < k ==> ord@[a] != q) {
                        let a = choose|a: int| 0 <= a < k && ord@[a] == q;
                        assert(0 <= a < k + 1 && ord@[a] == q);
                    }
                }
            }
        }
        k = k + 1;
    }
    proof {
        assert(is_stable_order(tree_keys(orig), ord@));
        lemma_tree_order_by_name(orig, ord@);
        assert forall|a: int, b: int| 0 <= a < b < r@.len() implies may_precede(#[trigger] r@[a], #[trigger] r@[b]) by {
            assert(r@[a] == orig[ord@[a] as int]);
            assert(r@[b] == orig[ord@[b] as int]);
        }
    }
    r
}

/// Whether a directory entry is hidden: its name starts with `.`.
pub fn is_hidden_name(name: &str) -> (r: bool)
    ensures
        r == (name@.len() > 0 && name@[0] == '.'),
{
    let v = to_chars(name);
    v.len() > 0 && v[0] == '.'
}

} // verus!
