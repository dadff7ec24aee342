use toricelli::graph::LinkGraph;
use toricelli::score::backlink_counts;
use toricelli::types::{Note, NoteMap, NoteStore, Timestamp, ID};

fn setup() -> (NoteStore, LinkGraph) {
    let template_note = Note {
        id: ID::from(String::new()),
        mtimes: vec![Timestamp { secs: 1_700_000_000, nanos: 0 }],
        stability: 1.0f64.to_bits(),
        score: 0.0f64.to_bits(),
        ..Default::default()
    };

    let mut notes: NoteMap = Vec::new();

    let ids = ["A", "B", "C", "D"].map(|id| ID::new(id));

    for id in ids {
        let mut n = template_note.clone();
        n.id = id.clone();
        notes.push((id.clone(), n));
    }

    // Build edges: A->B, A->C, A->D, B->C, B->D, C->D
    let one = 1.0f64.to_bits();
    let edges = vec![
        (ID::new("A"), ID::new("B"), one),
        (ID::new("A"), ID::new("C"), one),
        (ID::new("A"), ID::new("D"), one),
        (ID::new("B"), ID::new("C"), one),
        (ID::new("B"), ID::new("D"), one),
        (ID::new("C"), ID::new("D"), one),
    ];

    let graph = LinkGraph::from_edges(edges);

    (NoteStore::from_notes(notes), graph)
}

#[test]
fn test_backlink_counts() {
    let (_, graph) = setup();
    let counts = backlink_counts(&graph);

    // A has 0 backlinks
    assert_eq!(counts.get("A"), Some(&0));
    // B has 1 backlink (from A)
    assert_eq!(counts.get("B"), Some(&1));
    // C has 2 backlinks (from A, B)
    assert_eq!(counts.get("C"), Some(&2));
    // D has 3 backlinks (from A, B, C)
    assert_eq!(counts.get("D"), Some(&3));
}

#[test]
fn backlink_counts_cover_every_node_and_only_nodes() {
    let (store, graph) = setup();
    let counts = backlink_counts(&graph);
    assert_eq!(counts.len(), graph.node_count());
    assert_eq!(store.len(), 4);
    assert_eq!(counts.get("E"), None);
}

#[test]
fn backlink_counts_of_registered_node_without_links() {
    let mut graph = LinkGraph::new();
    graph.register_node(ID::new("lonely"));
    graph.upsert_link(ID::new("x"), ID::new("y"), 7);
    graph.upsert_link(ID::new("z"), ID::new("y"), 7);
    let counts = backlink_counts(&graph);
    assert_eq!(counts.get("lonely"), Some(&0));
    assert_eq!(counts.get("x"), Some(&0));
    assert_eq!(counts.get("y"), Some(&2));
    assert_eq!(counts.len(), 4);
}
