use toricelli::graph::{group_edges, LinkGraph};
use toricelli::types::ID;

fn ids(v: &[&ID]) -> Vec<String> {
    v.iter().map(|id| id.as_str().to_string()).collect()
}

#[test]
fn register_node_is_idempotent() {
    let mut g = LinkGraph::new();
    assert_eq!(g.register_node(ID::new("a")), 0);
    assert_eq!(g.register_node(ID::new("b")), 1);
    assert_eq!(g.register_node(ID::new("a")), 0);
    assert_eq!(g.node_count(), 2);
    assert_eq!(g.index_of(&ID::new("b")), Some(1));
    assert_eq!(g.index_of(&ID::new("c")), None);
    assert_eq!(g.id_at(1).as_str(), "b");
}

#[test]
fn from_edges_numbers_nodes_by_first_appearance() {
    let g = LinkGraph::from_edges(vec![
        (ID::new("b"), ID::new("a"), 1),
        (ID::new("c"), ID::new("b"), 2),
    ]);
    assert_eq!(g.node_count(), 3);
    assert_eq!(g.index_of(&ID::new("b")), Some(0));
    assert_eq!(g.index_of(&ID::new("a")), Some(1));
    assert_eq!(g.index_of(&ID::new("c")), Some(2));
    assert_eq!(g.edge_count(), 2);
    assert!(g.dirty_ids().is_empty());
}

#[test]
fn group_edges_then_summed_weights_build_the_graph() {
    let (a, b, c) = (ID::new("A"), ID::new("B"), ID::new("C"));
    let edges = vec![
        (a.clone(), b.clone(), 1.0f64.to_bits()),
        (a.clone(), c.clone(), 2.0f64.to_bits()),
        (a.clone(), b.clone(), 0.5f64.to_bits()),
    ];
    let grouped = group_edges(&edges);
    assert_eq!(grouped.len(), 2);
    assert_eq!((grouped[0].0.as_str(), grouped[0].1.as_str()), ("A", "B"));
    assert_eq!(grouped[0].2, vec![1.0f64.to_bits(), 0.5f64.to_bits()]);
    assert_eq!((grouped[1].0.as_str(), grouped[1].1.as_str()), ("A", "C"));
    assert_eq!(grouped[1].2, vec![2.0f64.to_bits()]);

    let merged: Vec<(ID, ID, u64)> = grouped
        .into_iter()
        .map(|(s, d, ws)| (s, d, ws.iter().map(|w| f64::from_bits(*w)).sum::<f64>().to_bits()))
        .collect();
    let g = LinkGraph::from_edges(merged);
    assert_eq!(g.edge_count(), 2);
    let links = g.links(&a).unwrap();
    assert_eq!(ids(&links.iter().map(|p| p.0).collect::<Vec<_>>()), vec!["B", "C"]);
    assert_eq!(links.iter().map(|p| f64::from_bits(p.1)).collect::<Vec<_>>(), vec![1.5, 2.0]);
    assert_eq!(g.links(&b), Some(vec![]));
    assert!(g.links(&ID::new("Z")).is_none());
}

#[test]
fn dirty_links_lists_the_rows_to_flush() {
    let mut g = LinkGraph::from_edges(vec![(ID::new("a"), ID::new("b"), 1)]);
    assert!(g.dirty_links().is_empty());
    g.upsert_link(ID::new("c"), ID::new("a"), 4);
    g.upsert_link(ID::new("c"), ID::new("b"), 5);
    let rows: Vec<(String, String, u64)> = g
        .dirty_links()
        .into_iter()
        .map(|(s, d, w)| (s.as_str().to_string(), d.as_str().to_string(), w))
        .collect();
    assert_eq!(rows, vec![("c".to_string(), "a".to_string(), 4), ("c".to_string(), "b".to_string(), 5)]);
    assert_eq!(g.edge_count(), 3);
}

#[test]
fn links_and_backlinks_agree() {
    let g = LinkGraph::from_edges(vec![
        (ID::new("a"), ID::new("c"), 3),
        (ID::new("a"), ID::new("b"), 2),
        (ID::new("b"), ID::new("c"), 4),
    ]);
    let out = g.links(&ID::new("a")).unwrap();
    assert_eq!(ids(&out.iter().map(|p| p.0).collect::<Vec<_>>()), vec!["c", "b"]);
    assert_eq!(out.iter().map(|p| p.1).collect::<Vec<_>>(), vec![3, 2]);
    let back = g.backlinks(&ID::new("c")).unwrap();
    assert_eq!(ids(&back.iter().map(|p| p.0).collect::<Vec<_>>()), vec!["a", "b"]);
    assert_eq!(back.iter().map(|p| p.1).collect::<Vec<_>>(), vec![3, 4]);
    assert_eq!(g.backlinks(&ID::new("a")).unwrap().len(), 0);
    assert!(g.links(&ID::new("zz")).is_none());
    assert!(g.backlinks(&ID::new("zz")).is_none());
    assert_eq!(g.out_degree(0), Some(2));
    assert_eq!(g.out_degree(1), Some(0));
    assert_eq!(g.out_degree(2), Some(1));
}

#[test]
fn upsert_link_registers_nodes_and_marks_source_dirty() {
    let mut g = LinkGraph::new();
    g.upsert_link(ID::new("s"), ID::new("d"), 9);
    g.upsert_link(ID::new("s"), ID::new("d"), 10);
    assert_eq!(g.node_count(), 2);
    assert_eq!(g.edge_count(), 1);
    let links = g.links(&ID::new("s")).unwrap();
    assert_eq!(links.len(), 1);
    assert_eq!(links[0].0.as_str(), "d");
    assert_eq!(links[0].1, 10);
    let dirty = g.dirty_ids();
    assert_eq!(dirty.len(), 1);
    assert_eq!(dirty[0].as_str(), "s");
    g.clear_dirty();
    assert!(g.dirty_ids().is_empty());
    assert_eq!(g.edge_count(), 1);
}

#[test]
fn registered_node_without_row_has_no_links_yet() {
    let mut g = LinkGraph::new();
    g.register_node(ID::new("x"));
    assert!(g.links(&ID::new("x")).is_none());
    assert_eq!(g.out_degree(0), None);
}

#[test]
fn transpose_lists_incoming_links() {
    let g = LinkGraph::from_edges(vec![
        (ID::new("a"), ID::new("b"), 1),
        (ID::new("c"), ID::new("b"), 2),
    ]);
    let t = g.transpose();
    assert_eq!(t.rows(), 3);
    assert_eq!(t.row_entries(1), Some(vec![(0, 1), (2, 2)]));
    assert_eq!(t.row_entries(0), Some(vec![]));
    assert_eq!(t.row_entries(3), None);
    let incoming = g.incoming_links();
    assert_eq!(incoming.len(), 3);
    assert_eq!(incoming[1], Some(vec![(0, 1), (2, 2)]));
}
