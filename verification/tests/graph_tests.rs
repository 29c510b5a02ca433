use vaultdb::graph::{build_link_graph, EdgeKind, GraphNode, LinkEdge, PointPayload};

fn s(x: &str) -> String {
    x.to_string()
}

fn point(title: &str, path: &str, tags: Option<&str>, links: Option<&str>) -> PointPayload {
    PointPayload {
        title: Some(s(title)),
        path: Some(s(path)),
        tags: tags.map(s),
        links: links.map(s),
    }
}

fn ids(nodes: &[GraphNode]) -> Vec<String> {
    nodes.iter().map(|n| n.id.clone()).collect()
}

fn edges(es: &[LinkEdge]) -> Vec<(String, String, EdgeKind)> {
    es.iter().map(|e| (e.source.clone(), e.target.clone(), e.kind)).collect()
}

fn sample() -> Vec<PointPayload> {
    vec![
        point(
            "A",
            "/v/A.md",
            Some("[\"t1\",\"t2\"]"),
            Some("[\"B\",\"C#sec\",\"dir/D\",\"a\",\"b\",\"E\",\"#only-anchor\"]"),
        ),
        point("B", "/v/B.md", Some("[\"t1\"]"), Some("[]")),
        point("A", "/v/other.md", Some("[\"zzz\"]"), Some("[\"B\"]")),
        point("E", "/v/E.md", None, None),
        point("G", "/v/G.md", Some("not json"), Some("{}")),
        point("F", "/v/F.md", Some("[\"t1\"]"), None),
    ]
}

#[test]
fn graph_nodes_with_ghosts() {
    let (nodes, _) = build_link_graph(&sample());
    assert_eq!(ids(&nodes), vec![s("A"), s("B"), s("E"), s("G"), s("F"), s("C"), s("D")]);
    let a = &nodes[0];
    assert_eq!(a.path, "/v/A.md");
    assert_eq!(a.tags, vec![s("t1"), s("t2")]);
    assert_eq!(a.link_count, 1);
    assert!(nodes[3].tags.is_empty());
    assert_eq!(nodes[5].path, "");
    assert!(nodes[5].tags.is_empty());
    assert_eq!(nodes[5].title, "C");
}

#[test]
fn graph_edges_links_backlinks_and_tags() {
    let (_, es) = build_link_graph(&sample());
    let want = vec![
        (s("A"), s("B"), EdgeKind::Link),
        (s("B"), s("A"), EdgeKind::Backlink),
        (s("A"), s("C"), EdgeKind::Link),
        (s("C"), s("A"), EdgeKind::Backlink),
        (s("A"), s("D"), EdgeKind::Link),
        (s("D"), s("A"), EdgeKind::Backlink),
        (s("A"), s("E"), EdgeKind::Link),
        (s("E"), s("A"), EdgeKind::Backlink),
        (s("A"), s("F"), EdgeKind::Tag),
        (s("B"), s("F"), EdgeKind::Tag),
    ];
    assert_eq!(edges(&es), want);
}

#[test]
fn graph_links_are_symmetric_and_distinct() {
    let (nodes, es) = build_link_graph(&sample());
    let all = edges(&es);
    for (i, (a, b, k)) in all.iter().enumerate() {
        assert!(ids(&nodes).contains(a) && ids(&nodes).contains(b));
        if *k == EdgeKind::Link {
            assert!(a != b);
            assert!(all.iter().any(|(x, y, _)| x == b && y == a));
        }
        for (c, d, _) in all.iter().skip(i + 1) {
            assert!(!(a == c && b == d));
        }
    }
}

#[test]
fn graph_missing_payload_fields_default() {
    let p = PointPayload { title: None, path: None, tags: None, links: Some(s("[\"x\"]")) };
    let (nodes, es) = build_link_graph(&vec![p]);
    assert_eq!(ids(&nodes), vec![s(""), s("x")]);
    assert_eq!(edges(&es), vec![(s(""), s("x"), EdgeKind::Link), (s("x"), s(""), EdgeKind::Backlink)]);
}

#[test]
fn graph_common_tags_make_no_edges() {
    let mut ps = Vec::new();
    for i in 0..21 {
        ps.push(point(&format!("N{}", i), "", Some("[\"common\"]"), None));
    }
    let (nodes, es) = build_link_graph(&ps);
    assert_eq!(nodes.len(), 21);
    assert!(es.is_empty());
    ps.pop();
    let (_, es) = build_link_graph(&ps);
    assert_eq!(es.len(), 20 * 19 / 2);
}

#[test]
fn graph_backlinks_have_reverse_and_ids_are_titles() {
    let (nodes, es) = build_link_graph(&sample());
    for n in &nodes {
        assert_eq!(n.id, n.title);
    }
    for e in &es {
        if e.kind == EdgeKind::Backlink || e.kind == EdgeKind::Link {
            assert!(e.source != e.target);
            assert!(es.iter().any(|f| f.source == e.target && f.target == e.source));
        }
    }
}
