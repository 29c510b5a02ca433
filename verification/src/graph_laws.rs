//! What holds of every graph that `build_link_graph` builds.
use vstd::prelude::*;
use crate::text::spec_lowercase;
use crate::graph::{
    add_edge_if_new, add_link, add_point, add_to_group, node_index, first_ci_match, ghost_node, group_edges,
    group_index, group_phase, has_edge, has_node, id_at, ids_unique, link_graph, link_items,
    link_name, link_phase, node_ids, node_phase, pair_phase, pairs_from, point_title, resolve_link,
    row_pairs, tag_at, tag_groups, tag_occurrences, tag_phase, tags_unique, without_anchor,
    EdgeKind, EdgeView, NodeView, PointView,
};

verus! {

/// No two edges join the same ordered pair of nodes.
pub open spec fn edges_distinct(edges: Seq<EdgeView>) -> bool {
    forall|i: int, j: int|
        0 <= i < j < edges.len() ==> !((#[trigger] edges[i]).source == (#[trigger] edges[j]).source
            && edges[i].target == edges[j].target)
}

/// Every node's identity is its title.
pub open spec fn titles_are_ids(nodes: Seq<NodeView>) -> bool {
    forall|i: int| 0 <= i < nodes.len() ==> (#[trigger] nodes[i]).title == nodes[i].id
}

/// A link or a backlink edge: one that a wikilink made.
pub open spec fn is_link_kind(k: EdgeKind) -> bool {
    k == EdgeKind::Link || k == EdgeKind::Backlink
}

/// The laws of the link layer: node identities are unique and are the
/// nodes' titles, no two edges join the same ordered pair, every edge joins
/// two nodes, and every link or backlink edge joins two different notes and
/// has an edge back.
pub open spec fn graph_inv(nodes: Seq<NodeView>, edges: Seq<EdgeView>) -> bool {
    &&& ids_unique(nodes)
    &&& titles_are_ids(nodes)
    &&& edges_distinct(edges)
    &&& forall|i: int|
        0 <= i < edges.len() ==> has_node(nodes, (#[trigger] edges[i]).source) && has_node(
            nodes,
            edges[i].target,
        )
    &&& forall|i: int|
        0 <= i < edges.len() && is_link_kind((#[trigger] edges[i]).kind) ==> edges[i].source
            != edges[i].target && has_edge(edges, edges[i].target, edges[i].source)
}

proof fn lemma_has_edge_mono(edges: Seq<EdgeView>, e: EdgeView, x: Seq<char>, y: Seq<char>)
    requires
        has_edge(edges, x, y),
    ensures
        has_edge(edges.push(e), x, y),
{
    let i = choose|i: int| 0 <= i < edges.len() && (#[trigger] edges[i]).source == x && edges[i].target == y;
    assert(edges.push(e)[i] == edges[i]);
}

proof fn lemma_has_node_mono_push(nodes: Seq<NodeView>, n: NodeView, x: Seq<char>)
    requires
        has_node(nodes, x),
    ensures
        has_node(nodes.push(n), x),
{
    let i = choose|i: int| id_at(nodes, x, i);
    assert(id_at(nodes.push(n), x, i));
}

/// Adding a tag edge between two nodes keeps the laws.
proof fn lemma_add_edge_inv(nodes: Seq<NodeView>, edges: Seq<EdgeView>, a: Seq<char>, b: Seq<char>, k: EdgeKind)
    requires
        graph_inv(nodes, edges),
        has_node(nodes, a),
        has_node(nodes, b),
        k == EdgeKind::Tag,
    ensures
        graph_inv(nodes, add_edge_if_new(edges, a, b, k)),
        has_edge(add_edge_if_new(edges, a, b, k), a, b),
        forall|x: Seq<char>, y: Seq<char>| has_edge(edges, x, y) ==> #[trigger] has_edge(add_edge_if_new(edges, a, b, k), x, y),
{
    let e2 = add_edge_if_new(edges, a, b, k);
    if !has_edge(edges, a, b) {
        let ne = EdgeView { source: a, target: b, kind: k };
        assert(e2 == edges.push(ne));
        assert(e2[edges.len() as int] == ne);
        assert forall|x: Seq<char>, y: Seq<char>| has_edge(edges, x, y) implies #[trigger] has_edge(e2, x, y) by {
            lemma_has_edge_mono(edges, ne, x, y);
        }
        assert forall|i: int, j: int| 0 <= i < j < e2.len() implies !((#[trigger] e2[i]).source == (#[trigger] e2[j]).source
            && e2[i].target == e2[j].target) by {
            if j == edges.len() {
                assert(e2[i] == edges[i]);
            } else {
                assert(e2[i] == edges[i]);
                assert(e2[j] == edges[j]);
            }
        }
        assert forall|i: int| 0 <= i < e2.len() && is_link_kind((#[trigger] e2[i]).kind) implies e2[i].source
            != e2[i].target && has_edge(e2, e2[i].target, e2[i].source) by {
            assert(e2[i] == edges[i]);
            lemma_has_edge_mono(edges, ne, edges[i].target, edges[i].source);
        }
        assert forall|i: int| 0 <= i < e2.len() implies has_node(nodes, (#[trigger] e2[i]).source) && has_node(
            nodes,
            e2[i].target,
        ) by {
            if i < edges.len() {
                assert(e2[i] == edges[i]);
            }
        }
    }
}

/// Adding a link edge and its backlink between two different nodes keeps the laws.
proof fn lemma_add_link_pair_inv(nodes: Seq<NodeView>, edges: Seq<EdgeView>, s: Seq<char>, t: Seq<char>)
    requires
        graph_inv(nodes, edges),
        has_node(nodes, s),
        has_node(nodes, t),
        s != t,
    ensures
        graph_inv(
            nodes,
            add_edge_if_new(add_edge_if_new(edges, s, t, EdgeKind::Link), t, s, EdgeKind::Backlink),
        ),
{
    let e1 = add_edge_if_new(edges, s, t, EdgeKind::Link);
    let e2 = add_edge_if_new(e1, t, s, EdgeKind::Backlink);
    let l = EdgeView { source: s, target: t, kind: EdgeKind::Link };
    let bk = EdgeView { source: t, target: s, kind: EdgeKind::Backlink };
    // e2 is edges with at most l and then bk appended
    assert(has_edge(e2, t, s)) by {
        if has_edge(e1, t, s) {
            assert(e2 == e1);
        } else {
            assert(e2 == e1.push(bk));
            assert(e2[e1.len() as int] == bk);
        }
    }
    assert forall|x: Seq<char>, y: Seq<char>| has_edge(edges, x, y) implies #[trigger] has_edge(e2, x, y) by {
        if !has_edge(edges, s, t) {
            lemma_has_edge_mono(edges, l, x, y);
        }
        if !has_edge(e1, t, s) {
            lemma_has_edge_mono(e1, bk, x, y);
        }
    }
    assert forall|i: int| 0 <= i < e2.len() implies (#[trigger] e2[i] == (if i < edges.len() {
        edges[i]
    } else if i == edges.len() && !has_edge(edges, s, t) {
        l
    } else {
        bk
    })) by {
        if !has_edge(edges, s, t) {
            assert(e1 == edges.push(l));
        } else {
            assert(e1 == edges);
        }
        if !has_edge(e1, t, s) {
            assert(e2 == e1.push(bk));
        } else {
            assert(e2 == e1);
        }
    }
    assert(e2.len() <= edges.len() + 2);
    assert(!has_edge(edges, s, t) ==> e2.len() >= edges.len() + 1);
    assert forall|i: int, j: int| 0 <= i < j < e2.len() implies !((#[trigger] e2[i]).source == (#[trigger] e2[j]).source
        && e2[i].target == e2[j].target) by {
        if j >= edges.len() && i < edges.len() {
            if e2[j] == l {
                assert(!has_edge(edges, s, t));
            } else {
                // e2[j] is the backlink, added only when e1 had no edge t -> s
                assert(!has_edge(e1, t, s));
                if !has_edge(edges, s, t) {
                    assert(e1[i] == edges[i]);
                } else {
                    assert(e1 == edges);
                }
            }
        } else if j >= edges.len() && i >= edges.len() {
            assert(e2[i] == l && e2[j] == bk);
        }
    }
    assert(has_edge(e2, s, t)) by {
        if has_edge(edges, s, t) {
            let k = choose|k: int| 0 <= k < edges.len() && (#[trigger] edges[k]).source == s && edges[k].target == t;
            assert(e2[k] == edges[k]);
        } else {
            assert(e2[edges.len() as int] == l);
        }
    }
    assert forall|i: int| 0 <= i < e2.len() && is_link_kind((#[trigger] e2[i]).kind) implies e2[i].source
        != e2[i].target && has_edge(e2, e2[i].target, e2[i].source) by {
        if i < edges.len() {
            assert(has_edge(edges, edges[i].target, edges[i].source));
        }
    }
    assert forall|i: int| 0 <= i < e2.len() implies has_node(nodes, (#[trigger] e2[i]).source) && has_node(
        nodes,
        e2[i].target,
    ) by {
        if i < edges.len() {
            assert(e2[i] == edges[i]);
        }
    }
}

proof fn lemma_first_ci_member(titles: Seq<Seq<char>>, name: Seq<char>)
    ensures
        first_ci_match(titles, name) matches Some(t) ==> titles.contains(t),
    decreases titles.len(),
{
    if titles.len() > 0 {
        lemma_first_ci_member(titles.drop_first(), name);
        if let Some(t) = first_ci_match(titles, name) {
            if spec_lowercase_eq(titles, name) {
                assert(titles[0] == t);
            } else {
                let k = choose|k: int| 0 <= k < titles.drop_first().len() && titles.drop_first()[k] == t;
                assert(titles[k + 1] == t);
            }
        }
    }
}

spec fn spec_lowercase_eq(titles: Seq<Seq<char>>, name: Seq<char>) -> bool {
    crate::text::spec_lowercase(titles[0]) == crate::text::spec_lowercase(name)
}

/// The case-insensitive match is the first title whose lower case is the
/// lower case of the name; there is none only when no title has it.
pub proof fn lemma_first_ci_match_is_first_equal_ignoring_case(titles: Seq<Seq<char>>, name: Seq<char>)
    ensures
        match first_ci_match(titles, name) {
            Some(t) => exists|j: int|
                0 <= j < titles.len() && titles[j] == t && spec_lowercase(t) == spec_lowercase(name) && forall|i: int|
                    0 <= i < j ==> spec_lowercase(#[trigger] titles[i]) != spec_lowercase(name),
            None => forall|i: int| 0 <= i < titles.len() ==> spec_lowercase(#[trigger] titles[i]) != spec_lowercase(name),
        },
    decreases titles.len(),
{
    if titles.len() > 0 {
        let rest = titles.drop_first();
        lemma_first_ci_match_is_first_equal_ignoring_case(rest, name);
        if spec_lowercase(titles[0]) == spec_lowercase(name) {
            assert(titles[0] == first_ci_match(titles, name)->0);
        } else {
            match first_ci_match(rest, name) {
                Some(t) => {
                    let j = choose|j: int|
                        0 <= j < rest.len() && rest[j] == t && spec_lowercase(t) == spec_lowercase(name)
                            && forall|i: int| 0 <= i < j ==> spec_lowercase(#[trigger] rest[i]) != spec_lowercase(name);
                    assert(titles[j + 1] == t);
                    assert forall|i: int| 0 <= i < j + 1 implies spec_lowercase(#[trigger] titles[i]) != spec_lowercase(name) by {
                        if i > 0 {
                            assert(titles[i] == rest[i - 1]);
                        }
                    }
                },
                None => {
                    assert forall|i: int| 0 <= i < titles.len() implies spec_lowercase(#[trigger] titles[i]) != spec_lowercase(name) by {
                        if i > 0 {
                            assert(titles[i] == rest[i - 1]);
                        }
                    }
                },
            }
        }
    }
}

/// The case-insensitive match depends on a name only through its lower
/// case: names that differ only in case find the same title.
pub proof fn lemma_first_ci_match_ignores_case(titles: Seq<Seq<char>>, n1: Seq<char>, n2: Seq<char>)
    requires
        spec_lowercase(n1) == spec_lowercase(n2),
    ensures
        first_ci_match(titles, n1) == first_ci_match(titles, n2),
    decreases titles.len(),
{
    if titles.len() > 0 {
        lemma_first_ci_match_ignores_case(titles.drop_first(), n1, n2);
    }
}

/// A link whose name and anchorless text name no node, but whose name
/// equals a note title ignoring case, resolves to the first such title: no
/// ghost node is made, and unless the title is the linking note itself the
/// graph gets an edge from the linking note to it and one back.
pub proof fn lemma_link_resolves_ignoring_case(
    st: (Seq<NodeView>, Seq<EdgeView>),
    titles: Seq<Seq<char>>,
    source: Seq<char>,
    link: Seq<char>,
    k: int,
)
    requires
        link_name(link).len() > 0,
        !has_node(st.0, link_name(link)),
        !has_node(st.0, without_anchor(link)),
        0 <= k < titles.len(),
        spec_lowercase(titles[k]) == spec_lowercase(link_name(link)),
    ensures
        resolve_link(st.0, titles, link) is Some,
        titles.contains(resolve_link(st.0, titles, link)->0),
        spec_lowercase(resolve_link(st.0, titles, link)->0) == spec_lowercase(link_name(link)),
        add_link(st, titles, source, link).0 == st.0,
        resolve_link(st.0, titles, link)->0 != source ==> has_edge(
            add_link(st, titles, source, link).1,
            source,
            resolve_link(st.0, titles, link)->0,
        ) && has_edge(add_link(st, titles, source, link).1, resolve_link(st.0, titles, link)->0, source),
{
    let nm = link_name(link);
    lemma_first_ci_match_is_first_equal_ignoring_case(titles, nm);
    if first_ci_match(titles, nm) is None {
        assert(spec_lowercase(titles[k]) != spec_lowercase(nm));
    }
    let t = first_ci_match(titles, nm)->0;
    let j = choose|j: int|
        0 <= j < titles.len() && titles[j] == t && spec_lowercase(t) == spec_lowercase(nm) && forall|i: int|
            0 <= i < j ==> spec_lowercase(#[trigger] titles[i]) != spec_lowercase(nm);
    assert(titles.contains(t));
    if t != source {
        let e1 = add_edge_if_new(st.1, source, t, EdgeKind::Link);
        let e2 = add_edge_if_new(e1, t, source, EdgeKind::Backlink);
        assert(has_edge(e1, source, t)) by {
            if !has_edge(st.1, source, t) {
                assert(e1[st.1.len() as int].source == source && e1[st.1.len() as int].target == t);
            }
        }
        assert(has_edge(e2, source, t)) by {
            if !has_edge(e1, t, source) {
                lemma_has_edge_mono(e1, EdgeView { source: t, target: source, kind: EdgeKind::Backlink }, source, t);
            }
        }
        assert(has_edge(e2, t, source)) by {
            if !has_edge(e1, t, source) {
                assert(e2[e1.len() as int].source == t && e2[e1.len() as int].target == source);
            }
        }
    }
}

/// Resolving one link keeps the laws, and keeps every node.
proof fn lemma_add_link_inv(
    st: (Seq<NodeView>, Seq<EdgeView>),
    titles: Seq<Seq<char>>,
    source: Seq<char>,
    link: Seq<char>,
)
    requires
        graph_inv(st.0, st.1),
        has_node(st.0, source),
        forall|k: int| 0 <= k < titles.len() ==> has_node(st.0, #[trigger] titles[k]),
    ensures
        graph_inv(add_link(st, titles, source, link).0, add_link(st, titles, source, link).1),
        forall|x: Seq<char>| has_node(st.0, x) ==> #[trigger] has_node(add_link(st, titles, source, link).0, x),
{
    let nm = link_name(link);
    let r = add_link(st, titles, source, link);
    if nm.len() > 0 {
        let res = resolve_link(st.0, titles, link);
        let target = match res {
            Some(t) => t,
            None => nm,
        };
        match res {
            Some(t) => {
                assert(r.0 == st.0);
                if !has_node(st.0, nm) && !has_node(st.0, without_anchor(link)) {
                    lemma_first_ci_member(titles, nm);
                    let k = choose|k: int| 0 <= k < titles.len() && titles[k] == t;
                    assert(has_node(st.0, titles[k]));
                }
                assert(has_node(st.0, target));
                if target != source {
                    lemma_add_link_pair_inv(st.0, st.1, source, target);
                }
            },
            None => {
                let nodes = st.0.push(ghost_node(nm));
                assert(r.0 == nodes);
                assert(!has_node(st.0, nm));
                assert(ids_unique(nodes)) by {
                    assert forall|a: int, b: int| 0 <= a < b < nodes.len() implies (#[trigger] nodes[a]).id
                        != (#[trigger] nodes[b]).id by {
                        if b == st.0.len() {
                            assert(!id_at(st.0, nm, a));
                        }
                    }
                }
                assert forall|x: Seq<char>| has_node(st.0, x) implies #[trigger] has_node(nodes, x) by {
                    lemma_has_node_mono_push(st.0, ghost_node(nm), x);
                }
                assert(id_at(nodes, nm, st.0.len() as int));
                assert(graph_inv(nodes, st.1)) by {
                    assert forall|i: int| 0 <= i < st.1.len() implies has_node(nodes, (#[trigger] st.1[i]).source)
                        && has_node(nodes, st.1[i].target) by {
                        lemma_has_node_mono_push(st.0, ghost_node(nm), st.1[i].source);
                        lemma_has_node_mono_push(st.0, ghost_node(nm), st.1[i].target);
                    }
                }
                lemma_has_node_mono_push(st.0, ghost_node(nm), source);
                if target != source {
                    lemma_add_link_pair_inv(nodes, st.1, source, target);
                }
            },
        }
    }
}

/// Resolving a sequence of links keeps the laws.
proof fn lemma_link_phase_inv(
    st: (Seq<NodeView>, Seq<EdgeView>),
    titles: Seq<Seq<char>>,
    items: Seq<(Seq<char>, Seq<char>)>,
)
    requires
        graph_inv(st.0, st.1),
        forall|k: int| 0 <= k < titles.len() ==> has_node(st.0, #[trigger] titles[k]),
        forall|k: int| 0 <= k < items.len() ==> has_node(st.0, (#[trigger] items[k]).0),
    ensures
        graph_inv(link_phase(st, titles, items).0, link_phase(st, titles, items).1),
        forall|x: Seq<char>| has_node(st.0, x) ==> #[trigger] has_node(link_phase(st, titles, items).0, x),
    decreases items.len(),
{
    if items.len() > 0 {
        let st2 = add_link(st, titles, items[0].0, items[0].1);
        lemma_add_link_inv(st, titles, items[0].0, items[0].1);
        let rest = items.drop_first();
        assert forall|k: int| 0 <= k < rest.len() implies has_node(st2.0, (#[trigger] rest[k]).0) by {
            assert(rest[k] == items[k + 1]);
        }
        lemma_link_phase_inv(st2, titles, rest);
    }
}

/// Adding tag edges between the given pairs of nodes keeps the laws.
proof fn lemma_pair_phase_inv(nodes: Seq<NodeView>, edges: Seq<EdgeView>, pairs: Seq<(Seq<char>, Seq<char>)>)
    requires
        graph_inv(nodes, edges),
        forall|k: int| 0 <= k < pairs.len() ==> has_node(nodes, (#[trigger] pairs[k]).0) && has_node(nodes, pairs[k].1),
    ensures
        graph_inv(nodes, pair_phase(edges, pairs)),
    decreases pairs.len(),
{
    if pairs.len() > 0 {
        lemma_add_edge_inv(nodes, edges, pairs[0].0, pairs[0].1, EdgeKind::Tag);
        let rest = pairs.drop_first();
        assert forall|k: int| 0 <= k < rest.len() implies has_node(nodes, (#[trigger] rest[k]).0) && has_node(nodes, rest[k].1) by {
            assert(rest[k] == pairs[k + 1]);
        }
        lemma_pair_phase_inv(nodes, add_edge_if_new(edges, pairs[0].0, pairs[0].1, EdgeKind::Tag), rest);
    }
}

/// Every member of a pair is a member of the list.
proof fn lemma_pairs_members(ns: Seq<Seq<char>>, i: int)
    ensures
        forall|k: int| 0 <= k < pairs_from(ns, i).len() ==> ns.contains((#[trigger] pairs_from(ns, i)[k]).0) && ns.contains(pairs_from(ns, i)[k].1),
    decreases ns.len() - i,
{
    if 0 <= i < ns.len() {
        lemma_pairs_members(ns, i + 1);
        let row = row_pairs(ns, i);
        let p = pairs_from(ns, i);
        assert(p == row + pairs_from(ns, i + 1));
        assert forall|k: int| 0 <= k < p.len() implies ns.contains((#[trigger] p[k]).0) && ns.contains(p[k].1) by {
            if k < row.len() {
                assert(p[k] == (ns[i], ns[i + 1 + k]));
                assert(ns[i] == p[k].0);
                assert(ns[i + 1 + k] == p[k].1);
            } else {
                assert(p[k] == pairs_from(ns, i + 1)[k - row.len()]);
            }
        }
    }
}

/// Adding the tag edges of groups of nodes keeps the laws.
proof fn lemma_tag_phase_inv(nodes: Seq<NodeView>, edges: Seq<EdgeView>, groups: Seq<(Seq<char>, Seq<Seq<char>>)>)
    requires
        graph_inv(nodes, edges),
        forall|g: int, k: int| 0 <= g < groups.len() && 0 <= k < groups[g].1.len() ==> has_node(nodes, #[trigger] groups[g].1[k]),
    ensures
        graph_inv(nodes, tag_phase(edges, groups)),
    decreases groups.len(),
{
    if groups.len() > 0 {
        let g = groups[0];
        let e2 = group_edges(edges, g);
        if 2 <= g.1.len() <= 20 {
            lemma_pairs_members(g.1, 0);
            let ps = pairs_from(g.1, 0);
            assert forall|k: int| 0 <= k < ps.len() implies has_node(nodes, (#[trigger] ps[k]).0) && has_node(nodes, ps[k].1) by {
                let a = choose|a: int| 0 <= a < g.1.len() && g.1[a] == ps[k].0;
                let b = choose|b: int| 0 <= b < g.1.len() && g.1[b] == ps[k].1;
                assert(has_node(nodes, groups[0].1[a]));
                assert(has_node(nodes, groups[0].1[b]));
            }
            lemma_pair_phase_inv(nodes, edges, ps);
        }
        let rest = groups.drop_first();
        assert forall|gi: int, k: int| 0 <= gi < rest.len() && 0 <= k < rest[gi].1.len() implies has_node(nodes, #[trigger] rest[gi].1[k]) by {
            assert(rest[gi] == groups[gi + 1]);
            assert(has_node(nodes, groups[gi + 1].1[k]));
        }
        lemma_tag_phase_inv(nodes, e2, rest);
    }
}

/// The members of the tag groups are node identities.
proof fn lemma_group_phase_members(
    nodes: Seq<NodeView>,
    groups: Seq<(Seq<char>, Seq<Seq<char>>)>,
    occs: Seq<(Seq<char>, Seq<char>)>,
)
    requires
        tags_unique(groups),
        forall|g: int, k: int| 0 <= g < groups.len() && 0 <= k < groups[g].1.len() ==> has_node(nodes, #[trigger] groups[g].1[k]),
        forall|k: int| 0 <= k < occs.len() ==> has_node(nodes, (#[trigger] occs[k]).1),
    ensures
        forall|g: int, k: int|
            0 <= g < group_phase(groups, occs).len() && 0 <= k < group_phase(groups, occs)[g].1.len() ==> has_node(
                nodes,
                #[trigger] group_phase(groups, occs)[g].1[k],
            ),
    decreases occs.len(),
{
    if occs.len() > 0 {
        let o = occs[0];
        let g2 = add_to_group(groups, o);
        let gk = group_index(groups, o.0);
        assert(has_node(nodes, o.1));
        if exists|i: int| tag_at(groups, o.0, i) {
            let i = choose|i: int| tag_at(groups, o.0, i);
            assert(gk == i);
            assert(g2 == groups.update(gk, (groups[gk].0, groups[gk].1.push(o.1))));
            assert forall|a: int, b: int| 0 <= a < b < g2.len() implies (#[trigger] g2[a]).0 != (#[trigger] g2[b]).0 by {
                assert(g2[a].0 == groups[a].0);
                assert(g2[b].0 == groups[b].0);
            }
            assert forall|g: int, k: int| 0 <= g < g2.len() && 0 <= k < g2[g].1.len() implies has_node(nodes, #[trigger] g2[g].1[k]) by {
                if g == gk {
                    if k < groups[g].1.len() {
                        assert(g2[g].1[k] == groups[g].1[k]);
                    } else {
                        assert(g2[g].1[k] == o.1);
                    }
                } else {
                    assert(g2[g] == groups[g]);
                }
            }
        } else {
            assert(g2 == groups.push((o.0, seq![o.1])));
            assert forall|a: int, b: int| 0 <= a < b < g2.len() implies (#[trigger] g2[a]).0 != (#[trigger] g2[b]).0 by {
                if b == groups.len() {
                    assert(!tag_at(groups, o.0, a));
                }
            }
            assert forall|g: int, k: int| 0 <= g < g2.len() && 0 <= k < g2[g].1.len() implies has_node(nodes, #[trigger] g2[g].1[k]) by {
                if g < groups.len() {
                    assert(g2[g] == groups[g]);
                }
            }
        }
        let rest = occs.drop_first();
        assert forall|k: int| 0 <= k < rest.len() implies has_node(nodes, (#[trigger] rest[k]).1) by {
            assert(rest[k] == occs[k + 1]);
        }
        lemma_group_phase_members(nodes, g2, rest);
        assert(group_phase(groups, occs) == group_phase(g2, rest));
    }
}

/// The note of every tag occurrence is a node.
proof fn lemma_occurrence_ids(nodes: Seq<NodeView>, all: Seq<NodeView>, from: int)
    requires
        0 <= from <= all.len(),
        nodes == all.skip(from),
    ensures
        forall|k: int| 0 <= k < tag_occurrences(nodes).len() ==> has_node(all, (#[trigger] tag_occurrences(nodes)[k]).1),
    decreases nodes.len(),
{
    if nodes.len() > 0 {
        assert(nodes.drop_first() =~= all.skip(from + 1));
        lemma_occurrence_ids(nodes.drop_first(), all, from + 1);
        let row = nodes[0].tags.map_values(|t: Seq<char>| (t, nodes[0].id));
        let occ = tag_occurrences(nodes);
        assert(occ == row + tag_occurrences(nodes.drop_first()));
        assert(id_at(all, nodes[0].id, from));
        assert forall|k: int| 0 <= k < occ.len() implies has_node(all, (#[trigger] occ[k]).1) by {
            if k < row.len() {
                assert(occ[k].1 == nodes[0].id);
            } else {
                assert(occ[k] == tag_occurrences(nodes.drop_first())[k - row.len()]);
            }
        }
    }
}

/// The node phase keeps identities unique, gives every stored chunk's title
/// a node, and queues links only under titles of nodes.
proof fn lemma_node_phase_inv(
    st: (Seq<NodeView>, Seq<(Seq<char>, Seq<Seq<char>>)>),
    ps: Seq<PointView>,
)
    requires
        ids_unique(st.0),
        titles_are_ids(st.0),
        forall|k: int| 0 <= k < st.1.len() ==> has_node(st.0, (#[trigger] st.1[k]).0),
    ensures
        ids_unique(node_phase(st, ps).0),
        titles_are_ids(node_phase(st, ps).0),
        forall|k: int| 0 <= k < node_phase(st, ps).1.len() ==> has_node(node_phase(st, ps).0, (#[trigger] node_phase(st, ps).1[k]).0),
        forall|k: int| 0 <= k < ps.len() ==> has_node(node_phase(st, ps).0, point_title(#[trigger] ps[k])),
        forall|x: Seq<char>| has_node(st.0, x) ==> #[trigger] has_node(node_phase(st, ps).0, x),
    decreases ps.len(),
{
    if ps.len() > 0 {
        let st2 = add_point(st, ps[0]);
        crate::graph::lemma_add_point_unique(st, ps[0]);
        assert(titles_are_ids(st2.0)) by {
            let t = point_title(ps[0]);
            let k = node_index(st.0, t);
            assert forall|i: int| 0 <= i < st2.0.len() implies (#[trigger] st2.0[i]).title == st2.0[i].id by {
                if i < st.0.len() {
                    assert(st.0[i].title == st.0[i].id);
                }
            }
        }
        assert forall|k: int| 0 <= k < st2.1.len() implies has_node(st2.0, (#[trigger] st2.1[k]).0) by {
            if k < st.1.len() {
                assert(st2.1[k] == st.1[k]);
                assert(has_node(st.0, st.1[k].0));
            }
        }
        let rest = ps.drop_first();
        lemma_node_phase_inv(st2, rest);
        let r = node_phase(st, ps);
        assert(r == node_phase(st2, rest));
        assert forall|k: int| 0 <= k < ps.len() implies has_node(r.0, point_title(#[trigger] ps[k])) by {
            if k == 0 {
                assert(has_node(st2.0, point_title(ps[0])));
            } else {
                assert(ps[k] == rest[k - 1]);
            }
        }
    }
}

/// The laws of the link layer hold of the graph of any stored chunks: node
/// identities are unique and are the nodes' titles, no two edges join the
/// same ordered pair of nodes, every edge joins two nodes, every link and
/// every backlink edge joins two different notes and has an edge back, and
/// every stored chunk's title is a node.
pub proof fn lemma_link_graph_laws(ps: Seq<PointView>)
    ensures
        graph_inv(link_graph(ps).0, link_graph(ps).1),
        forall|k: int| 0 <= k < ps.len() ==> has_node(link_graph(ps).0, point_title(#[trigger] ps[k])),
{
    let st0: (Seq<NodeView>, Seq<(Seq<char>, Seq<Seq<char>>)>) = (Seq::empty(), Seq::empty());
    lemma_node_phase_inv(st0, ps);
    let np = node_phase(st0, ps);
    let titles = node_ids(np.0);
    let items = link_items(np.1);
    lemma_link_items_sources(np.0, np.1);
    assert forall|k: int| 0 <= k < titles.len() implies has_node(np.0, #[trigger] titles[k]) by {
        assert(id_at(np.0, titles[k], k));
    }
    assert(graph_inv(np.0, Seq::<EdgeView>::empty()));
    lemma_link_phase_inv((np.0, Seq::empty()), titles, items);
    let lp = link_phase((np.0, Seq::empty()), titles, items);
    assert(lp.0.skip(0) =~= lp.0);
    lemma_occurrence_ids(lp.0, lp.0, 0);
    lemma_group_phase_members(lp.0, Seq::empty(), tag_occurrences(lp.0));
    lemma_tag_phase_inv(lp.0, lp.1, tag_groups(lp.0));
}

/// The note of every queued link is a node.
proof fn lemma_link_items_sources(nodes: Seq<NodeView>, pending: Seq<(Seq<char>, Seq<Seq<char>>)>)
    requires
        forall|k: int| 0 <= k < pending.len() ==> has_node(nodes, (#[trigger] pending[k]).0),
    ensures
        forall|k: int| 0 <= k < link_items(pending).len() ==> has_node(nodes, (#[trigger] link_items(pending)[k]).0),
    decreases pending.len(),
{
    if pending.len() > 0 {
        let rest = pending.drop_first();
        assert forall|k: int| 0 <= k < rest.len() implies has_node(nodes, (#[trigger] rest[k]).0) by {
            assert(rest[k] == pending[k + 1]);
        }
        lemma_link_items_sources(nodes, rest);
        let row = pending[0].1.map_values(|l: Seq<char>| (pending[0].0, l));
        let it = link_items(pending);
        assert(it == row + link_items(rest));
        assert(has_node(nodes, pending[0].0));
        assert forall|k: int| 0 <= k < it.len() implies has_node(nodes, (#[trigger] it[k]).0) by {
            if k < row.len() {
                assert(it[k].0 == pending[0].0);
            } else {
                assert(it[k] == link_items(rest)[k - row.len()]);
            }
        }
    }
}

} // verus!
