//! The link layer of a vault's graph: a node per note title, link and
//! backlink edges resolved the way Obsidian resolves wikilinks, ghost nodes
//! for links that name no note, and edges between notes that share a tag.
use vstd::prelude::*;
use crate::graph_laws::{graph_inv, lemma_link_graph_laws};
use crate::json::{parse_string_list, spec_parse_string_list};
use crate::text::{
    after_last, after_last_index, find_in_set, prefix_until, spec_lowercase, string_from_range,
    to_chars, to_lowercase, views, CharSet,
};

verus! {

/// The kind of an edge of the link layer.
#[derive(Clone, Copy, Debug, PartialEq, Eq)]
pub enum EdgeKind {
    /// From a note to a note that it links to.
    Link,
    /// From a linked note back to the note that links to it.
    Backlink,
    /// Between two notes that share a tag.
    Tag,
}

/// A node of the graph: a note, or a ghost for a link target without a note.
#[derive(Debug)]
pub struct GraphNode {
    /// The node's identity: the note's title.
    pub id: String,
    /// The note's title.
    pub title: String,
    /// The note's path; empty for a ghost.
    pub path: String,
    /// The note's tags.
    pub tags: Vec<String>,
    /// The number of links in the last stored chunk of the note.
    pub link_count: usize,
}

/// An edge of the link layer.
#[derive(Debug)]
pub struct LinkEdge {
    /// The title of the node it leaves.
    pub source: String,
    /// The title of the node it reaches.
    pub target: String,
    /// What made the edge.
    pub kind: EdgeKind,
}

/// The payload of a stored chunk, as far as the graph reads it: each field
/// holds the payload's string under that key, if it has one.
#[derive(Debug)]
pub struct PointPayload {
    /// The `title` entry.
    pub title: Option<String>,
    /// The `path` entry.
    pub path: Option<String>,
    /// The `tags` entry: a JSON list of strings.
    pub tags: Option<String>,
    /// The `links` entry: a JSON list of strings.
    pub links: Option<String>,
}

/// The view of a `GraphNode`.
pub struct NodeView {
    pub id: Seq<char>,
    pub title: Seq<char>,
    pub path: Seq<char>,
    pub tags: Seq<Seq<char>>,
    pub link_count: nat,
}

/// The view of a `LinkEdge`.
pub struct EdgeView {
    pub source: Seq<char>,
    pub target: Seq<char>,
    pub kind: EdgeKind,
}

/// The view of a `PointPayload`.
pub struct PointView {
    pub title: Option<Seq<char>>,
    pub path: Option<Seq<char>>,
    pub tags: Option<Seq<char>>,
    pub links: Option<Seq<char>>,
}

/// The view of an optional string.
pub open spec fn opt_view(o: Option<String>) -> Option<Seq<char>> {
    match o {
        Some(s) => Some(s@),
        None => None,
    }
}

impl View for GraphNode {
    type V = NodeView;

    open spec fn view(&self) -> NodeView {
        NodeView {
            id: self.id@,
            title: self.title@,
            path: self.path@,
            tags: views(self.tags@),
            link_count: self.link_count as nat,
        }
    }
}

impl View for LinkEdge {
    type V = EdgeView;

    open spec fn view(&self) -> EdgeView {
        EdgeView { source: self.source@, target: self.target@, kind: self.kind }
    }
}

impl View for PointPayload {
    type V = PointView;

    open spec fn view(&self) -> PointView {
        PointView {
            title: opt_view(self.title),
            path: opt_view(self.path),
            tags: opt_view(self.tags),
            links: opt_view(self.links),
        }
    }
}

/// The views of nodes.
pub open spec fn node_views(v: Seq<GraphNode>) -> Seq<NodeView> {
    v.map_values(|n: GraphNode| n@)
}

/// The views of edges.
pub open spec fn edge_views(v: Seq<LinkEdge>) -> Seq<EdgeView> {
    v.map_values(|e: LinkEdge| e@)
}

/// The views of payloads.
pub open spec fn point_views(v: Seq<PointPayload>) -> Seq<PointView> {
    v.map_values(|p: PointPayload| p@)
}

/// `o`'s text, or `d` when there is none.
pub open spec fn or_default(o: Option<Seq<char>>, d: Seq<char>) -> Seq<char> {
    match o {
        Some(s) => s,
        None => d,
    }
}

/// The text `[]`.
pub open spec fn empty_list_text() -> Seq<char> {
    seq!['[', ']']
}

/// The list that a JSON text holds, or no strings when it holds none.
pub open spec fn list_of(text: Seq<char>) -> Seq<Seq<char>> {
    match spec_parse_string_list(text) {
        Some(l) => l,
        None => Seq::empty(),
    }
}

/// The title of a stored chunk (empty when missing).
pub open spec fn point_title(p: PointView) -> Seq<char> {
    or_default(p.title, Seq::empty())
}

/// The path of a stored chunk (empty when missing).
pub open spec fn point_path(p: PointView) -> Seq<char> {
    or_default(p.path, Seq::empty())
}

/// The tags of a stored chunk (none when missing or unreadable).
pub open spec fn point_tags(p: PointView) -> Seq<Seq<char>> {
    list_of(or_default(p.tags, empty_list_text()))
}

/// The links of a stored chunk (none when missing or unreadable).
pub open spec fn point_links(p: PointView) -> Seq<Seq<char>> {
    list_of(or_default(p.links, empty_list_text()))
}

/// `nodes[i]` has identity `id`.
pub open spec fn id_at(nodes: Seq<NodeView>, id: Seq<char>, i: int) -> bool {
    0 <= i < nodes.len() && nodes[i].id == id
}

/// The index of the node with identity `id`, or `-1`.
pub open spec fn node_index(nodes: Seq<NodeView>, id: Seq<char>) -> int {
    if exists|i: int| id_at(nodes, id, i) {
        choose|i: int| id_at(nodes, id, i)
    } else {
        -1
    }
}

/// No two nodes share an identity.
pub open spec fn ids_unique(nodes: Seq<NodeView>) -> bool {
    forall|i: int, j: int| 0 <= i < j < nodes.len() ==> (#[trigger] nodes[i]).id != (#[trigger] nodes[j]).id
}

/// Whether some node has identity `id`.
pub open spec fn has_node(nodes: Seq<NodeView>, id: Seq<char>) -> bool {
    exists|i: int| id_at(nodes, id, i)
}

/// A node for a note first seen in a stored chunk.
pub open spec fn new_node(id: Seq<char>, path: Seq<char>, tags: Seq<Seq<char>>, link_count: nat) -> NodeView {
    NodeView { id: id, title: id, path: path, tags: tags, link_count: link_count }
}

/// The nodes and the pending link lists after one more stored chunk: a note
/// seen before keeps its path and tags and takes the chunk's link count; a
/// new note gets a node; a chunk with links queues them.
pub open spec fn add_point(
    st: (Seq<NodeView>, Seq<(Seq<char>, Seq<Seq<char>>)>),
    p: PointView,
) -> (Seq<NodeView>, Seq<(Seq<char>, Seq<Seq<char>>)>) {
    let t = point_title(p);
    let ls = point_links(p);
    let k = node_index(st.0, t);
    let nodes = if k >= 0 {
        st.0.update(k, NodeView { link_count: ls.len(), ..st.0[k] })
    } else {
        st.0.push(new_node(t, point_path(p), point_tags(p), ls.len()))
    };
    let pending = if ls.len() > 0 {
        st.1.push((t, ls))
    } else {
        st.1
    };
    (nodes, pending)
}

/// The nodes and pending link lists after the stored chunks `ps`, starting
/// from `st`.
pub open spec fn node_phase(
    st: (Seq<NodeView>, Seq<(Seq<char>, Seq<Seq<char>>)>),
    ps: Seq<PointView>,
) -> (Seq<NodeView>, Seq<(Seq<char>, Seq<Seq<char>>)>)
    decreases ps.len(),
{
    if ps.len() == 0 {
        st
    } else {
        node_phase(add_point(st, ps[0]), ps.drop_first())
    }
}

proof fn lemma_node_index(nodes: Seq<NodeView>, id: Seq<char>, i: int)
    requires
        ids_unique(nodes),
        id_at(nodes, id, i),
    ensures
        node_index(nodes, id) == i,
{
    let j = choose|j: int| id_at(nodes, id, j);
    if j < i {
        assert(nodes[j].id != nodes[i].id);
    } else if j > i {
        assert(nodes[i].id != nodes[j].id);
    }
}

pub proof fn lemma_add_point_unique(st: (Seq<NodeView>, Seq<(Seq<char>, Seq<Seq<char>>)>), p: PointView)
    requires
        ids_unique(st.0),
    ensures
        ids_unique(add_point(st, p).0),
        forall|x: Seq<char>| has_node(st.0, x) ==> #[trigger] has_node(add_point(st, p).0, x),
        has_node(add_point(st, p).0, point_title(p)),
        add_point(st, p).0.len() >= st.0.len(),
        forall|i: int| 0 <= i < st.0.len() ==> (#[trigger] add_point(st, p).0[i]).id == st.0[i].id,
{
    let t = point_title(p);
    let k = node_index(st.0, t);
    let n2 = add_point(st, p).0;
    if has_node(st.0, t) {
        let i = choose|i: int| id_at(st.0, t, i);
        lemma_node_index(st.0, t, i);
        assert(id_at(n2, t, i));
        assert forall|x: Seq<char>| has_node(st.0, x) implies #[trigger] has_node(n2, x) by {
            let j = choose|j: int| id_at(st.0, x, j);
            assert(id_at(n2, x, j));
        }
    } else {
        assert(id_at(n2, t, st.0.len() as int));
        assert forall|a: int, b: int| 0 <= a < b < n2.len() implies (#[trigger] n2[a]).id
            != (#[trigger] n2[b]).id by {
            if b == st.0.len() {
                assert(!id_at(st.0, t, a));
            }
        }
        assert forall|x: Seq<char>| has_node(st.0, x) implies #[trigger] has_node(n2, x) by {
            let j = choose|j: int| id_at(st.0, x, j);
            assert(id_at(n2, x, j));
        }
    }
}

/// Finds the node with identity `id`.
fn find_node(nodes: &Vec<GraphNode>, id: &String) -> (r: Option<usize>)
    requires
        ids_unique(node_views(nodes@)),
    ensures
        match r {
            Some(i) => id_at(node_views(nodes@), id@, i as int) && node_index(
                node_views(nodes@),
                id@,
            ) == i,
            None => !has_node(node_views(nodes@), id@) && node_index(node_views(nodes@), id@) == -1,
        },
{
    let mut i: usize = 0;
    while i < nodes.len()
        invariant
            0 <= i <= nodes@.len(),
            ids_unique(node_views(nodes@)),
            forall|j: int| 0 <= j < i ==> !id_at(node_views(nodes@), id@, j),
        decreases nodes@.len() - i,
    {
        if nodes[i].id == *id {
            proof {
                assert(id_at(node_views(nodes@), id@, i as int));
                lemma_node_index(node_views(nodes@), id@, i as int);
            }
            return Some(i);
        }
        proof {
            assert(!id_at(node_views(nodes@), id@, i as int));
        }
        i = i + 1;
    }
    None
}

/// The text of a payload entry, or `default` when the payload has none.
pub fn payload_str(o: &Option<String>, default: &str) -> (r: String)
    ensures
        r@ == or_default(opt_view(*o), default@),
{
    match o {
        Some(s) => s.clone(),
        None => default.to_owned(),
    }
}

/// The list of strings that a payload entry holds as JSON.
fn list_entry(o: &Option<String>) -> (r: Vec<String>)
    ensures
        views(r@) == list_of(or_default(opt_view(*o), empty_list_text())),
{
    let d = "[]";
    proof {
        reveal_strlit("[]");
        assert(d@ =~= empty_list_text());
    }
    let text = payload_str(o, d);
    match parse_string_list(text.as_str()) {
        Some(l) => l,
        None => Vec::new(),
    }
}


/// The views of pending link lists.
pub open spec fn pending_views(v: Seq<(String, Vec<String>)>) -> Seq<(Seq<char>, Seq<Seq<char>>)> {
    v.map_values(|e: (String, Vec<String>)| (e.0@, views(e.1@)))
}

/// Builds the nodes of the graph and queues the link lists, chunk by chunk.
fn run_node_phase(points: &Vec<PointPayload>) -> (r: (Vec<GraphNode>, Vec<(String, Vec<String>)>))
    ensures
        (node_views(r.0@), pending_views(r.1@)) == node_phase(
            (Seq::empty(), Seq::empty()),
            point_views(points@),
        ),
        ids_unique(node_views(r.0@)),
{
    let ghost target = node_phase((Seq::empty(), Seq::empty()), point_views(points@));
    let mut nodes: Vec<GraphNode> = Vec::new();
    let mut pending: Vec<(String, Vec<String>)> = Vec::new();
    let mut i: usize = 0;
    proof {
        assert(point_views(points@).skip(0) =~= point_views(points@));
        assert(node_views(nodes@) =~= Seq::<NodeView>::empty());
        assert(pending_views(pending@) =~= Seq::<(Seq<char>, Seq<Seq<char>>)>::empty());
    }
    while i < points.len()
        invariant
            0 <= i <= points.len(),
            ids_unique(node_views(nodes@)),
            node_phase((node_views(nodes@), pending_views(pending@)), point_views(points@).skip(
                i as int,
            )) == target,
        decreases points.len() - i,
    {
        let p = &points[i];
        let ghost pv = point_views(points@)[i as int];
        let ghost st = (node_views(nodes@), pending_views(pending@));
        proof {
            assert(point_views(points@).skip(i as int)[0] == pv);
            assert(point_views(points@).skip(i as int).drop_first() =~= point_views(points@).skip(
                i as int + 1,
            ));
            lemma_add_point_unique(st, pv);
        }
        let e = "";
        proof {
            reveal_strlit("");
            assert(e@ =~= Seq::<char>::empty());
        }
        let title = payload_str(&p.title, e);
        let links = list_entry(&p.links);
        let nlinks = links.len();
        match find_node(&nodes, &title) {
            Some(k) => {
                let ghost before = nodes@;
                let mut node = nodes.remove(k);
                node.link_count = nlinks;
                nodes.insert(k, node);
                proof {
                    assert(node_views(nodes@) =~= node_views(before).update(
                        k as int,
                        NodeView { link_count: nlinks as nat, ..node_views(before)[k as int] },
                    ));
                }
            },
            None => {
                let path = payload_str(&p.path, e);
                let tags = list_entry(&p.tags);
                let ghost before = nodes@;
                nodes.push(
                    GraphNode {
                        id: title.clone(),
                        title: title.clone(),
                        path,
                        tags,
                        link_count: nlinks,
                    },
                );
                proof {
                    assert(node_views(nodes@) =~= node_views(before).push(
                        new_node(title@, point_path(pv), point_tags(pv), nlinks as nat),
                    ));
                }
            },
        }
        if nlinks > 0 {
            let ghost before = pending@;
            pending.push((title, links));
            proof {
                assert(pending_views(pending@) =~= pending_views(before).push(
                    (point_title(pv), point_links(pv)),
                ));
            }
        }
        proof {
            assert((node_views(nodes@), pending_views(pending@)) == add_point(st, pv));
        }
        i = i + 1;
    }
    proof {
        assert(point_views(points@).skip(i as int) =~= Seq::<PointView>::empty());
    }
    (nodes, pending)
}

/// A link without its heading anchor: the text before the first `#`.
pub open spec fn without_anchor(link: Seq<char>) -> Seq<char> {
    prefix_until(link, CharSet::Hash)
}

/// The note name a link names: the anchorless link after its last `/`.
pub open spec fn link_name(link: Seq<char>) -> Seq<char> {
    after_last(without_anchor(link), CharSet::Slash)
}

/// The first of `titles` that equals `name` ignoring case.
pub open spec fn first_ci_match(titles: Seq<Seq<char>>, name: Seq<char>) -> Option<Seq<char>>
    decreases titles.len(),
{
    if titles.len() == 0 {
        None
    } else if spec_lowercase(titles[0]) == spec_lowercase(name) {
        Some(titles[0])
    } else {
        first_ci_match(titles.drop_first(), name)
    }
}

/// The node a link resolves to: the node named by the link's name, else the
/// node named by the whole anchorless link, else the first note title equal
/// to the name ignoring case.
pub open spec fn resolve_link(nodes: Seq<NodeView>, titles: Seq<Seq<char>>, link: Seq<char>) -> Option<
    Seq<char>,
> {
    let nm = link_name(link);
    let na = without_anchor(link);
    if has_node(nodes, nm) {
        Some(nm)
    } else if has_node(nodes, na) {
        Some(na)
    } else {
        first_ci_match(titles, nm)
    }
}

/// Some edge goes from `a` to `b`.
pub open spec fn has_edge(edges: Seq<EdgeView>, a: Seq<char>, b: Seq<char>) -> bool {
    exists|i: int| 0 <= i < edges.len() && (#[trigger] edges[i]).source == a && edges[i].target == b
}

/// `edges` with an edge from `a` to `b` of `kind` added, unless one from `a`
/// to `b` is there already.
pub open spec fn add_edge_if_new(edges: Seq<EdgeView>, a: Seq<char>, b: Seq<char>, kind: EdgeKind) -> Seq<
    EdgeView,
> {
    if has_edge(edges, a, b) {
        edges
    } else {
        edges.push(EdgeView { source: a, target: b, kind: kind })
    }
}

/// The node for a link target without a note.
pub open spec fn ghost_node(name: Seq<char>) -> NodeView {
    new_node(name, Seq::empty(), Seq::empty(), 0)
}

/// The graph after one more link of the note `source`: the link is resolved
/// (or a ghost node made for it), and unless it points back at `source`, a
/// link edge and a backlink edge are added where missing.
pub open spec fn add_link(
    st: (Seq<NodeView>, Seq<EdgeView>),
    titles: Seq<Seq<char>>,
    source: Seq<char>,
    link: Seq<char>,
) -> (Seq<NodeView>, Seq<EdgeView>) {
    let nm = link_name(link);
    if nm.len() == 0 {
        st
    } else {
        let nodes = match resolve_link(st.0, titles, link) {
            Some(t) => st.0,
            None => st.0.push(ghost_node(nm)),
        };
        let target = match resolve_link(st.0, titles, link) {
            Some(t) => t,
            None => nm,
        };
        if target == source {
            (nodes, st.1)
        } else {
            (
                nodes,
                add_edge_if_new(
                    add_edge_if_new(st.1, source, target, EdgeKind::Link),
                    target,
                    source,
                    EdgeKind::Backlink,
                ),
            )
        }
    }
}

/// The links of the pending lists, each with its note, in order.
pub open spec fn link_items(pending: Seq<(Seq<char>, Seq<Seq<char>>)>) -> Seq<(Seq<char>, Seq<char>)>
    decreases pending.len(),
{
    if pending.len() == 0 {
        Seq::empty()
    } else {
        pending[0].1.map_values(|l: Seq<char>| (pending[0].0, l)) + link_items(pending.drop_first())
    }
}

/// The graph after the links `items`.
pub open spec fn link_phase(
    st: (Seq<NodeView>, Seq<EdgeView>),
    titles: Seq<Seq<char>>,
    items: Seq<(Seq<char>, Seq<char>)>,
) -> (Seq<NodeView>, Seq<EdgeView>)
    decreases items.len(),
{
    if items.len() == 0 {
        st
    } else {
        link_phase(add_link(st, titles, items[0].0, items[0].1), titles, items.drop_first())
    }
}

/// The identities of the nodes.
pub open spec fn node_ids(nodes: Seq<NodeView>) -> Seq<Seq<char>> {
    nodes.map_values(|n: NodeView| n.id)
}

/// Whether an edge from `a` to `b` is there.
fn find_edge(edges: &Vec<LinkEdge>, a: &String, b: &String) -> (r: bool)
    ensures
        r == has_edge(edge_views(edges@), a@, b@),
{
    let mut i: usize = 0;
    while i < edges.len()
        invariant
            0 <= i <= edges@.len(),
            forall|j: int|
                0 <= j < i ==> !((#[trigger] edge_views(edges@)[j]).source == a@ && edge_views(
                    edges@,
                )[j].target == b@),
        decreases edges@.len() - i,
    {
        if edges[i].source == *a && edges[i].target == *b {
            proof {
                assert(edge_views(edges@)[i as int].source == a@);
            }
            return true;
        }
        proof {
            assert(edge_views(edges@)[i as int] == edges@[i as int]@);
        }
        i = i + 1;
    }
    false
}

/// Adds an edge from `a` to `b` unless one is there.
fn push_edge_if_new(edges: &mut Vec<LinkEdge>, a: &String, b: &String, kind: EdgeKind)
    ensures
        edge_views(final(edges)@) == add_edge_if_new(edge_views(old(edges)@), a@, b@, kind),
{
    if !find_edge(edges, a, b) {
        let ghost before = edges@;
        edges.push(LinkEdge { source: a.clone(), target: b.clone(), kind });
        proof {
            assert(edge_views(edges@) =~= edge_views(before).push(
                EdgeView { source: a@, target: b@, kind: kind },
            ));
        }
    }
}

/// The first title equal to `name` ignoring case.
fn find_ci(titles: &Vec<String>, name: &String) -> (r: Option<usize>)
    ensures
        match r {
            Some(i) => i < titles.len() && first_ci_match(views(titles@), name@) == Some(
                titles@[i as int]@,
            ),
            None => first_ci_match(views(titles@), name@) is None,
        },
{
    let lower = to_lowercase(name.as_str());
    let mut i: usize = 0;
    proof {
        assert(views(titles@).skip(0) =~= views(titles@));
    }
    while i < titles.len()
        invariant
            0 <= i <= titles@.len(),
            lower@ == spec_lowercase(name@),
            first_ci_match(views(titles@), name@) == first_ci_match(
                views(titles@).skip(i as int),
                name@,
            ),
        decreases titles@.len() - i,
    {
        let t = to_lowercase(titles[i].as_str());
        proof {
            let s = views(titles@).skip(i as int);
            assert(s[0] == titles@[i as int]@);
            assert(s.drop_first() =~= views(titles@).skip(i as int + 1));
        }
        if t == lower {
            return Some(i);
        }
        i = i + 1;
    }
    None
}

/// Resolves one link of the note `source` and adds its edges.
fn run_add_link(
    nodes: &mut Vec<GraphNode>,
    edges: &mut Vec<LinkEdge>,
    titles: &Vec<String>,
    source: &String,
    link: &String,
)
    requires
        ids_unique(node_views(old(nodes)@)),
    ensures
        ids_unique(node_views(final(nodes)@)),
        (node_views(final(nodes)@), edge_views(final(edges)@)) == add_link(
            (node_views(old(nodes)@), edge_views(old(edges)@)),
            views(titles@),
            source@,
            link@,
        ),
{
    let lv = to_chars(link.as_str());
    let a = find_in_set(&lv, 0, lv.len(), CharSet::Hash);
    let b = after_last_index(&lv, 0, a, CharSet::Slash);
    proof {
        assert(lv@.subrange(0, lv@.len() as int) =~= lv@);
    }
    let name = string_from_range(&lv, b, a);
    let anchorless = string_from_range(&lv, 0, a);
    proof {
        assert(without_anchor(link@) == anchorless@);
        assert(link_name(link@) == name@);
    }
    if b == a {
        return;
    }
    let ghost nv = node_views(nodes@);
    let target: String = match find_node(nodes, &name) {
        Some(_) => name,
        None => match find_node(nodes, &anchorless) {
            Some(_) => anchorless,
            None => match find_ci(titles, &name) {
                Some(j) => titles[j].clone(),
                None => {
                    let ghost before = nodes@;
                    let no_tags: Vec<String> = Vec::new();
                    proof {
                        assert(views(no_tags@) =~= Seq::<Seq<char>>::empty());
                    }
                    nodes.push(
                        GraphNode {
                            id: name.clone(),
                            title: name.clone(),
                            path: String::new(),
                            tags: no_tags,
                            link_count: 0,
                        },
                    );
                    proof {
                        assert(node_views(nodes@) =~= node_views(before).push(ghost_node(name@)));
                        assert forall|p: int, q: int| 0 <= p < q < node_views(nodes@).len() implies (
                        #[trigger] node_views(nodes@)[p]).id != (#[trigger] node_views(
                            nodes@,
                        )[q]).id by {
                            if q == node_views(nodes@).len() - 1 {
                                assert(!id_at(nv, name@, p));
                            }
                        }
                    }
                    name
                },
            },
        },
    };
    if target != *source {
        push_edge_if_new(edges, source, &target, EdgeKind::Link);
        push_edge_if_new(edges, &target, source, EdgeKind::Backlink);
    }
}

/// Resolves every pending link, in order.
fn run_link_phase(
    nodes: &mut Vec<GraphNode>,
    edges: &mut Vec<LinkEdge>,
    titles: &Vec<String>,
    pending: &Vec<(String, Vec<String>)>,
)
    requires
        ids_unique(node_views(old(nodes)@)),
    ensures
        ids_unique(node_views(final(nodes)@)),
        (node_views(final(nodes)@), edge_views(final(edges)@)) == link_phase(
            (node_views(old(nodes)@), edge_views(old(edges)@)),
            views(titles@),
            link_items(pending_views(pending@)),
        ),
{
    let ghost target = link_phase(
        (node_views(nodes@), edge_views(edges@)),
        views(titles@),
        link_items(pending_views(pending@)),
    );
    let ghost pv = pending_views(pending@);
    let mut i: usize = 0;
    proof {
        assert(pv.skip(0) =~= pv);
    }
    while i < pending.len()
        invariant
            0 <= i <= pending@.len(),
            pv == pending_views(pending@),
            ids_unique(node_views(nodes@)),
            link_phase((node_views(nodes@), edge_views(edges@)), views(titles@), link_items(pv.skip(i as int))) == target,
        decreases pending@.len() - i,
    {
        let source = &pending[i].0;
        let links = &pending[i].1;
        let ghost row = views(links@).map_values(|l: Seq<char>| (source@, l));
        proof {
            let s = pv.skip(i as int);
            assert(s[0] == pv[i as int]);
            assert(s.drop_first() =~= pv.skip(i as int + 1));
            assert(link_items(s) == row + link_items(pv.skip(i as int + 1)));
            assert(row.skip(0) =~= row);
        }
        let mut k: usize = 0;
        while k < links.len()
            invariant
                0 <= k <= links@.len(),
                pv == pending_views(pending@),
                0 <= i < pending@.len(),
                source == &pending@[i as int].0,
                links == &pending@[i as int].1,
                row == views(links@).map_values(|l: Seq<char>| (source@, l)),
                ids_unique(node_views(nodes@)),
                link_phase(
                    (node_views(nodes@), edge_views(edges@)),
                    views(titles@),
                    row.skip(k as int) + link_items(pv.skip(i as int + 1)),
                ) == target,
            decreases links@.len() - k,
        {
            proof {
                let rest = row.skip(k as int) + link_items(pv.skip(i as int + 1));
                assert(rest[0] == (source@, links@[k as int]@));
                assert(rest.drop_first() =~= row.skip(k as int + 1) + link_items(
                    pv.skip(i as int + 1),
                ));
            }
            run_add_link(nodes, edges, titles, source, &links[k]);
            k = k + 1;
        }
        proof {
            assert(row.skip(links@.len() as int) + link_items(pv.skip(i as int + 1)) =~= link_items(
                pv.skip(i as int + 1),
            ));
        }
        i = i + 1;
    }
    proof {
        assert(link_items(pv.skip(i as int)) =~= Seq::<(Seq<char>, Seq<char>)>::empty());
    }
}


/// Each tag of each node with the node's identity, in node order.
pub open spec fn tag_occurrences(nodes: Seq<NodeView>) -> Seq<(Seq<char>, Seq<char>)>
    decreases nodes.len(),
{
    if nodes.len() == 0 {
        Seq::empty()
    } else {
        nodes[0].tags.map_values(|t: Seq<char>| (t, nodes[0].id)) + tag_occurrences(nodes.drop_first())
    }
}

/// `groups[i]` is the group of `tag`.
pub open spec fn tag_at(groups: Seq<(Seq<char>, Seq<Seq<char>>)>, tag: Seq<char>, i: int) -> bool {
    0 <= i < groups.len() && groups[i].0 == tag
}

/// The index of the group of `tag`, or `-1`.
pub open spec fn group_index(groups: Seq<(Seq<char>, Seq<Seq<char>>)>, tag: Seq<char>) -> int {
    if exists|i: int| tag_at(groups, tag, i) {
        choose|i: int| tag_at(groups, tag, i)
    } else {
        -1
    }
}

/// No two groups share a tag.
pub open spec fn tags_unique(groups: Seq<(Seq<char>, Seq<Seq<char>>)>) -> bool {
    forall|i: int, j: int| 0 <= i < j < groups.len() ==> (#[trigger] groups[i]).0 != (#[trigger] groups[j]).0
}

/// The groups with one more occurrence of a tag on a note.
pub open spec fn add_to_group(
    groups: Seq<(Seq<char>, Seq<Seq<char>>)>,
    occ: (Seq<char>, Seq<char>),
) -> Seq<(Seq<char>, Seq<Seq<char>>)> {
    let k = group_index(groups, occ.0);
    if k >= 0 {
        groups.update(k, (groups[k].0, groups[k].1.push(occ.1)))
    } else {
        groups.push((occ.0, seq![occ.1]))
    }
}

/// The groups after the occurrences `occs`.
pub open spec fn group_phase(
    groups: Seq<(Seq<char>, Seq<Seq<char>>)>,
    occs: Seq<(Seq<char>, Seq<char>)>,
) -> Seq<(Seq<char>, Seq<Seq<char>>)>
    decreases occs.len(),
{
    if occs.len() == 0 {
        groups
    } else {
        group_phase(add_to_group(groups, occs[0]), occs.drop_first())
    }
}

/// For each tag, in order of first occurrence, the notes that carry it.
pub open spec fn tag_groups(nodes: Seq<NodeView>) -> Seq<(Seq<char>, Seq<Seq<char>>)> {
    group_phase(Seq::empty(), tag_occurrences(nodes))
}

/// The pairs `(ns[i], ns[j])` for `j > i`, in order.
pub open spec fn row_pairs(ns: Seq<Seq<char>>, i: int) -> Seq<(Seq<char>, Seq<char>)> {
    Seq::new((ns.len() - i - 1) as nat, |k: int| (ns[i], ns[i + 1 + k]))
}

/// The pairs `(ns[a], ns[b])` for `i <= a < b`, in order.
pub open spec fn pairs_from(ns: Seq<Seq<char>>, i: int) -> Seq<(Seq<char>, Seq<char>)>
    decreases ns.len() - i,
{
    if i < 0 || i >= ns.len() {
        Seq::empty()
    } else {
        row_pairs(ns, i) + pairs_from(ns, i + 1)
    }
}

/// The edges with a tag edge added for each pair that has no edge yet.
pub open spec fn pair_phase(edges: Seq<EdgeView>, pairs: Seq<(Seq<char>, Seq<char>)>) -> Seq<EdgeView>
    decreases pairs.len(),
{
    if pairs.len() == 0 {
        edges
    } else {
        pair_phase(add_edge_if_new(edges, pairs[0].0, pairs[0].1, EdgeKind::Tag), pairs.drop_first())
    }
}

/// The largest number of notes that a tag may have and still link them.
pub const MAX_TAG_GROUP: usize = 20;

/// The edges after linking the notes of one tag: a tag carried by two to
/// twenty notes links each pair of them; a rarer or more common tag links
/// none.
pub open spec fn group_edges(edges: Seq<EdgeView>, g: (Seq<char>, Seq<Seq<char>>)) -> Seq<EdgeView> {
    if 2 <= g.1.len() <= 20 {
        pair_phase(edges, pairs_from(g.1, 0))
    } else {
        edges
    }
}

/// The edges after the tag groups `groups`.
pub open spec fn tag_phase(edges: Seq<EdgeView>, groups: Seq<(Seq<char>, Seq<Seq<char>>)>) -> Seq<
    EdgeView,
>
    decreases groups.len(),
{
    if groups.len() == 0 {
        edges
    } else {
        tag_phase(group_edges(edges, groups[0]), groups.drop_first())
    }
}

/// The link layer of the graph of the stored chunks `ps`: the nodes, then
/// the link and backlink edges, then the tag edges.
pub open spec fn link_graph(ps: Seq<PointView>) -> (Seq<NodeView>, Seq<EdgeView>) {
    let np = node_phase((Seq::empty(), Seq::empty()), ps);
    let lp = link_phase((np.0, Seq::empty()), node_ids(np.0), link_items(np.1));
    (lp.0, tag_phase(lp.1, tag_groups(lp.0)))
}

/// Finds the group of `tag`.
fn find_group(groups: &Vec<(String, Vec<String>)>, tag: &String) -> (r: Option<usize>)
    requires
        tags_unique(pending_views(groups@)),
    ensures
        match r {
            Some(i) => tag_at(pending_views(groups@), tag@, i as int) && group_index(
                pending_views(groups@),
                tag@,
            ) == i,
            None => group_index(pending_views(groups@), tag@) == -1,
        },
{
    let ghost gv = pending_views(groups@);
    let mut i: usize = 0;
    while i < groups.len()
        invariant
            0 <= i <= groups@.len(),
            gv == pending_views(groups@),
            tags_unique(gv),
            forall|j: int| 0 <= j < i ==> !tag_at(gv, tag@, j),
        decreases groups@.len() - i,
    {
        if groups[i].0 == *tag {
            proof {
                assert(tag_at(gv, tag@, i as int));
                let j = choose|j: int| tag_at(gv, tag@, j);
                if j < i {
                    assert(gv[j].0 != gv[i as int].0);
                } else if j > i {
                    assert(gv[i as int].0 != gv[j].0);
                }
            }
            return Some(i);
        }
        proof {
            assert(!tag_at(gv, tag@, i as int));
        }
        i = i + 1;
    }
    None
}

/// Groups the notes by tag.
fn run_group_phase(nodes: &Vec<GraphNode>) -> (groups: Vec<(String, Vec<String>)>)
    ensures
        pending_views(groups@) == tag_groups(node_views(nodes@)),
{
    let ghost target = tag_groups(node_views(nodes@));
    let ghost nv = node_views(nodes@);
    let mut groups: Vec<(String, Vec<String>)> = Vec::new();
    let mut i: usize = 0;
    proof {
        assert(pending_views(groups@) =~= Seq::<(Seq<char>, Seq<Seq<char>>)>::empty());
        assert(nv.skip(0) =~= nv);
    }
    while i < nodes.len()
        invariant
            0 <= i <= nodes@.len(),
            nv == node_views(nodes@),
            tags_unique(pending_views(groups@)),
            group_phase(pending_views(groups@), tag_occurrences(nv.skip(i as int))) == target,
        decreases nodes@.len() - i,
    {
        let node = &nodes[i];
        let ghost row = nv[i as int].tags.map_values(|t: Seq<char>| (t, nv[i as int].id));
        proof {
            let s = nv.skip(i as int);
            assert(s[0] == nv[i as int]);
            assert(s.drop_first() =~= nv.skip(i as int + 1));
            assert(row.skip(0) =~= row);
        }
        let mut k: usize = 0;
        while k < node.tags.len()
            invariant
                0 <= k <= node.tags@.len(),
                0 <= i < nodes@.len(),
                nv == node_views(nodes@),
                node == &nodes@[i as int],
                row == nv[i as int].tags.map_values(|t: Seq<char>| (t, nv[i as int].id)),
                tags_unique(pending_views(groups@)),
                group_phase(
                    pending_views(groups@),
                    row.skip(k as int) + tag_occurrences(nv.skip(i as int + 1)),
                ) == target,
            decreases node.tags@.len() - k,
        {
            let tag = &node.tags[k];
            let ghost gv = pending_views(groups@);
            proof {
                let rest = row.skip(k as int) + tag_occurrences(nv.skip(i as int + 1));
                assert(rest[0] == (tag@, node.id@));
                assert(rest.drop_first() =~= row.skip(k as int + 1) + tag_occurrences(
                    nv.skip(i as int + 1),
                ));
            }
            match find_group(&groups, tag) {
                Some(g) => {
                    let (t, mut members) = groups.remove(g);
                    let ghost mv = members@;
                    members.push(node.id.clone());
                    groups.insert(g, (t, members));
                    proof {
                        assert(views(members@) =~= views(mv).push(node.id@));
                        assert(pending_views(groups@) =~= gv.update(
                            g as int,
                            (gv[g as int].0, gv[g as int].1.push(node.id@)),
                        ));
                        assert forall|a: int, b: int| 0 <= a < b < pending_views(groups@).len() implies (
                        #[trigger] pending_views(groups@)[a]).0 != (#[trigger] pending_views(
                            groups@,
                        )[b]).0 by {
                            assert(pending_views(groups@)[a].0 == gv[a].0);
                            assert(pending_views(groups@)[b].0 == gv[b].0);
                        }
                    }
                },
                None => {
                    let mut members: Vec<String> = Vec::new();
                    members.push(node.id.clone());
                    groups.push((tag.clone(), members));
                    proof {
                        assert(views(members@) =~= seq![node.id@]);
                        assert(pending_views(groups@) =~= gv.push((tag@, seq![node.id@])));
                        assert forall|a: int, b: int| 0 <= a < b < pending_views(groups@).len() implies (
                        #[trigger] pending_views(groups@)[a]).0 != (#[trigger] pending_views(
                            groups@,
                        )[b]).0 by {
                            if b == gv.len() {
                                assert(!tag_at(gv, tag@, a));
                            }
                        }
                    }
                },
            }
            k = k + 1;
        }
        proof {
            assert(row.skip(node.tags@.len() as int) + tag_occurrences(nv.skip(i as int + 1))
                =~= tag_occurrences(nv.skip(i as int + 1)));
            assert(tag_occurrences(nv.skip(i as int)) == row + tag_occurrences(nv.skip(i as int + 1)));
        }
        i = i + 1;
    }
    proof {
        assert(tag_occurrences(nv.skip(i as int)) =~= Seq::<(Seq<char>, Seq<char>)>::empty());
    }
    groups
}

/// Adds the tag edges of every group, in order.
fn run_tag_phase(edges: &mut Vec<LinkEdge>, groups: &Vec<(String, Vec<String>)>)
    ensures
        edge_views(final(edges)@) == tag_phase(edge_views(old(edges)@), pending_views(groups@)),
{
    let ghost gv = pending_views(groups@);
    let ghost target = tag_phase(edge_views(edges@), gv);
    let mut gi: usize = 0;
    proof {
        assert(gv.skip(0) =~= gv);
    }
    while gi < groups.len()
        invariant
            0 <= gi <= groups@.len(),
            gv == pending_views(groups@),
            tag_phase(edge_views(edges@), gv.skip(gi as int)) == target,
        decreases groups@.len() - gi,
    {
        let ns = &groups[gi].1;
        let ghost nsv = views(ns@);
        let ghost later = gv.skip(gi as int + 1);
        proof {
            let s = gv.skip(gi as int);
            assert(s[0] == gv[gi as int]);
            assert(s.drop_first() =~= later);
            assert(gv[gi as int].1 == nsv);
        }
        let n = ns.len();
        if n >= 2 && n <= MAX_TAG_GROUP {
            let mut i: usize = 0;
            while i < n
                invariant
                    0 <= i <= n,
                    n == ns@.len(),
                    nsv == views(ns@),
                    tag_phase(pair_phase(edge_views(edges@), pairs_from(nsv, i as int)), later) == target,
                decreases n - i,
            {
                let ghost row = row_pairs(nsv, i as int);
                proof {
                    assert(pairs_from(nsv, i as int) == row + pairs_from(nsv, i as int + 1));
                    assert(row.skip(0) =~= row);
                }
                let mut j: usize = i + 1;
                while j < n
                    invariant
                        i < j <= n,
                        n == ns@.len(),
                        nsv == views(ns@),
                        row == row_pairs(nsv, i as int),
                        tag_phase(
                            pair_phase(
                                edge_views(edges@),
                                row.skip(j - i - 1) + pairs_from(nsv, i as int + 1),
                            ),
                            later,
                        ) == target,
                    decreases n - j,
                {
                    proof {
                        let rest = row.skip(j - i - 1) + pairs_from(nsv, i as int + 1);
                        assert(rest[0] == (ns@[i as int]@, ns@[j as int]@));
                        assert(rest.drop_first() =~= row.skip(j - i) + pairs_from(nsv, i as int + 1));
                    }
                    push_edge_if_new(edges, &ns[i], &ns[j], EdgeKind::Tag);
                    j = j + 1;
                }
                proof {
                    assert(row.skip(n - i - 1) + pairs_from(nsv, i as int + 1) =~= pairs_from(
                        nsv,
                        i as int + 1,
                    ));
                }
                i = i + 1;
            }
            proof {
                assert(pairs_from(nsv, n as int) =~= Seq::<(Seq<char>, Seq<char>)>::empty());
            }
        }
        gi = gi + 1;
    }
    proof {
        assert(gv.skip(gi as int) =~= Seq::<(Seq<char>, Seq<Seq<char>>)>::empty());
    }
}

/// Builds the link layer of a vault's graph from its stored chunks: a node
/// per note title (with the path and tags of its first chunk), ghost nodes
/// for links that name no note, link and backlink edges, and tag edges.
pub fn build_link_graph(points: &Vec<PointPayload>) -> (r: (Vec<GraphNode>, Vec<LinkEdge>))
    ensures
        (node_views(r.0@), edge_views(r.1@)) == link_graph(point_views(points@)),
        graph_inv(node_views(r.0@), edge_views(r.1@)),
        forall|k: int|
            0 <= k < points@.len() ==> has_node(node_views(r.0@), point_title(#[trigger] points@[k]@)),
{
    proof {
        lemma_link_graph_laws(point_views(points@));
        assert forall|k: int| 0 <= k < points@.len() implies has_node(
            link_graph(point_views(points@)).0,
            point_title(#[trigger] points@[k]@),
        ) by {
            assert(point_views(points@)[k] == points@[k]@);
        }
    }
    let (mut nodes, pending) = run_node_phase(points);
    let mut titles: Vec<String> = Vec::new();
    let mut i: usize = 0;
    while i < nodes.len()
        invariant
            0 <= i <= nodes@.len(),
            views(titles@) == node_ids(node_views(nodes@)).take(i as int),
        decreases nodes@.len() - i,
    {
        let ghost before = titles@;
        titles.push(nodes[i].id.clone());
        proof {
            assert(views(titles@) =~= views(before).push(nodes@[i as int].id@));
            assert(node_ids(node_views(nodes@)).take(i as int + 1) =~= node_ids(node_views(nodes@)).take(
                i as int,
            ).push(nodes@[i as int].id@));
        }
        i = i + 1;
    }
    proof {
        assert(node_ids(node_views(nodes@)).take(nodes@.len() as int) =~= node_ids(node_views(nodes@)));
    }
    let mut edges: Vec<LinkEdge> = Vec::new();
    proof {
        assert(edge_views(edges@) =~= Seq::<EdgeView>::empty());
    }
    run_link_phase(&mut nodes, &mut edges, &titles, &pending);
    let groups = run_group_phase(&nodes);
    run_tag_phase(&mut edges, &groups);
    (nodes, edges)
}

} // verus!
