use toricelli::types::{
    score_rank_of, Feed, FeedRequest, Note, NoteMap, NoteStore, SortOrder, Timestamp, ID,
};

fn note(id: &str, score: f64, mtimes: &[i64]) -> Note {
    Note {
        id: ID::new(id),
        file: None,
        mtimes: mtimes.iter().map(|s| Timestamp { secs: *s, nanos: 0 }).collect(),
        stability: 1.0f64.to_bits(),
        score: score.to_bits(),
    }
}

fn batch(notes: Vec<Note>) -> NoteMap {
    notes.into_iter().map(|n| (n.id.clone(), n)).collect()
}

fn feed_ids(f: &Feed, offset: usize, count: usize) -> Vec<String> {
    f.page(offset, count).iter().map(|id| id.as_str().to_string()).collect()
}

#[test]
fn default_note_and_request() {
    let n = Note::default();
    assert_eq!(n.id.as_str(), "");
    assert!(n.file.is_none());
    assert!(n.mtimes.is_empty());
    assert_eq!(f64::from_bits(n.stability), 1.0);
    assert_eq!(f64::from_bits(n.score), 0.0);
    let r = FeedRequest::default();
    assert_eq!(r.sort, SortOrder::ByScore);
    assert_eq!(r.count, 20);
    assert_eq!(r.offset, 0);
    assert_eq!(SortOrder::default(), SortOrder::ByScore);
}

#[test]
fn sort_order_labels() {
    assert_eq!(SortOrder::ByScore.label(), "by-score");
    assert_eq!(SortOrder::ByRecent.label(), "by-recent");
}

#[test]
fn from_notes_starts_clean_and_later_entry_wins() {
    let store = NoteStore::from_notes(batch(vec![note("a", 1.0, &[]), note("b", 2.0, &[]), note("a", 3.0, &[])]));
    assert_eq!(store.len(), 2);
    assert!(!store.is_empty());
    assert_eq!(store.dirty_count(), 0);
    assert_eq!(f64::from_bits(store.get(&ID::new("a")).unwrap().score), 3.0);
    assert!(store.get(&ID::new("zz")).is_none());
}

#[test]
fn writes_mark_notes_dirty_and_clear_dirty_resets() {
    let mut store = NoteStore::new();
    assert!(store.is_empty());
    store.insert(note("a", 1.0, &[]));
    assert!(store.is_dirty(&ID::new("a")));
    store.clear_dirty();
    assert_eq!(store.dirty_count(), 0);
    assert!(!store.is_dirty(&ID::new("a")));

    store.update(&ID::new("a"), |n| n.score = 5.0f64.to_bits());
    assert!(store.is_dirty(&ID::new("a")));
    assert_eq!(f64::from_bits(store.get(&ID::new("a")).unwrap().score), 5.0);
    store.clear_dirty();

    store.update(&ID::new("missing"), |n| n.score = 0);
    assert_eq!(store.dirty_count(), 0);
    assert_eq!(store.len(), 1);

    if let Some(n) = store.get_mut(&ID::new("a")) {
        n.stability = 2.0f64.to_bits();
    }
    assert!(store.is_dirty(&ID::new("a")));
    assert!(store.get_mut(&ID::new("missing")).is_none());
    assert_eq!(store.dirty_count(), 1);
    assert_eq!(f64::from_bits(store.get(&ID::new("a")).unwrap().stability), 2.0);
}

#[test]
fn upsert_from_notes_marks_the_batch_dirty() {
    let mut store = NoteStore::from_notes(batch(vec![note("a", 1.0, &[]), note("b", 1.0, &[])]));
    store.upsert_from_notes(batch(vec![note("b", 4.0, &[]), note("c", 5.0, &[])]));
    assert_eq!(store.len(), 3);
    assert_eq!(store.dirty_count(), 2);
    assert!(!store.is_dirty(&ID::new("a")));
    assert!(store.is_dirty(&ID::new("b")));
    assert!(store.is_dirty(&ID::new("c")));
    let mut dirty: Vec<String> = store.dirty_ids().iter().map(|id| id.as_str().to_string()).collect();
    dirty.sort();
    assert_eq!(dirty, vec!["b", "c"]);
    let mut scores: Vec<f64> = store.dirty_notes().iter().map(|n| f64::from_bits(n.score)).collect();
    scores.sort_by(|a, b| a.partial_cmp(b).unwrap());
    assert_eq!(scores, vec![4.0, 5.0]);
    assert_eq!(store.ids().len(), 3);
}

#[test]
fn feed_by_score_is_ascending_and_stable() {
    let store = NoteStore::from_notes(batch(vec![
        note("hi", 0.9, &[]),
        note("lo", 0.1, &[]),
        note("mid1", 0.5, &[]),
        note("mid2", 0.5, &[]),
        note("neg", -1.0, &[]),
    ]));
    let feed = Feed::build(&store, &SortOrder::ByScore);
    assert_eq!(feed.len(), 5);
    assert_eq!(feed_ids(&feed, 0, 10), vec!["neg", "lo", "mid1", "mid2", "hi"]);
}

#[test]
fn feed_by_recent_is_descending_by_last_edit() {
    let store = NoteStore::from_notes(batch(vec![
        note("old", 0.0, &[100, 200]),
        note("never", 0.0, &[]),
        note("new", 0.0, &[50, 300]),
        note("mid", 0.0, &[250]),
    ]));
    let feed = Feed::build(&store, &SortOrder::ByRecent);
    assert_eq!(feed_ids(&feed, 0, 4), vec!["new", "mid", "old", "never"]);
}

#[test]
fn page_is_clamped_to_the_feed() {
    let store = NoteStore::from_notes(batch(vec![note("a", 1.0, &[]), note("b", 2.0, &[]), note("c", 3.0, &[])]));
    let feed = Feed::build(&store, &SortOrder::ByScore);
    assert_eq!(feed_ids(&feed, 1, 1), vec!["b"]);
    assert_eq!(feed_ids(&feed, 2, 20), vec!["c"]);
    assert!(feed_ids(&feed, 3, 5).is_empty());
    assert!(feed_ids(&feed, 10, 5).is_empty());
    assert!(feed_ids(&feed, 0, 0).is_empty());
    assert_eq!(feed_ids(&feed, 1, usize::MAX), vec!["b", "c"]);
    assert!(feed_ids(&feed, usize::MAX, usize::MAX).is_empty());
    let empty = Feed(Vec::new());
    assert_eq!(empty.len(), 0);
    assert!(empty.page(0, 20).is_empty());
}

#[test]
fn score_rank_orders_like_partial_cmp() {
    let xs = [f64::NEG_INFINITY, -2.5, -1e-300, -0.0, 0.0, 1e-300, 0.5, 3.0, f64::INFINITY];
    for a in xs {
        for b in xs {
            let ra = score_rank_of(a.to_bits());
            let rb = score_rank_of(b.to_bits());
            assert_eq!(ra.cmp(&rb), a.partial_cmp(&b).unwrap(), "{} vs {}", a, b);
        }
    }
}

#[test]
fn id_conversions_and_equality() {
    let a = ID::from("x".to_string());
    let b = ID::new("x");
    assert_eq!(a, b);
    assert_ne!(a, ID::new("y"));
    assert_eq!(a.to_string(), "x");
    assert_eq!(a.clone().as_str(), "x");
}
