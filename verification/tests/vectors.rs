use std::collections::HashSet;
use echojournal::journal::RawEntry;
use echojournal::vectors::{
    enriched_content, index_entry_id, journal_entry_id, select_top_matches, should_resync, sync_summary,
    ScoredMatch, WatchEventKind,
};
use std::collections::hash_map::DefaultHasher;
use std::hash::{Hash, Hasher};

fn entry(date: &str, time: &str, text: &str, tag: &str) -> RawEntry {
    RawEntry { date: date.to_string(), time: time.to_string(), text: text.to_string(), tag: tag.to_string() }
}

#[test]
fn entry_id_is_date_and_text_hash() {
    let e = entry("2024-05-01", "09:00", "Went hiking", "Wellness");
    let mut h = DefaultHasher::new();
    "Went hiking".hash(&mut h);
    assert_eq!(journal_entry_id(&e), format!("2024-05-01-{}", h.finish()));
}

#[test]
fn entry_id_ignores_time_and_tag() {
    let a = entry("2024-05-01", "09:00", "same", "A");
    let b = entry("2024-05-01", "23:00", "same", "B");
    let c = entry("2024-05-01", "09:00", "different", "A");
    assert_eq!(journal_entry_id(&a), journal_entry_id(&b));
    assert_ne!(journal_entry_id(&a), journal_entry_id(&c));
}

#[test]
fn enriched_text() {
    let e = entry("2024-05-01", "09:00", "Went hiking", "Wellness");
    assert_eq!(enriched_content(&e), "Date: 2024-05-01 | Tag: #Wellness | Entry: Went hiking");
}

#[test]
fn bulk_index_id() {
    assert_eq!(index_entry_id(&entry("2024-05-01", "09:00", "x", "y")), "2024-05-01-09:00");
}

#[test]
fn sync_messages() {
    assert_eq!(sync_summary(0), "Journal is already up to date.");
    assert_eq!(sync_summary(1), "Successfully indexed 1 new memories.");
    assert_eq!(sync_summary(120), "Successfully indexed 120 new memories.");
}

fn m(rank: i64, content: &str) -> ScoredMatch {
    ScoredMatch { rank, content: content.to_string() }
}

#[test]
fn top_matches_most_similar_first() {
    let ms = vec![m(1, "low"), m(9, "high"), m(5, "mid"), m(9, "high2"), m(-3, "neg")];
    assert_eq!(select_top_matches(&ms, 3), vec!["high", "high2", "mid"]);
    assert_eq!(select_top_matches(&ms, 10), vec!["high", "high2", "mid", "low", "neg"]);
    assert!(select_top_matches(&ms, 0).is_empty());
    assert!(select_top_matches(&vec![], 5).is_empty());
}

#[test]
fn only_modifications_resync() {
    assert!(should_resync(&WatchEventKind::Modify));
    assert!(!should_resync(&WatchEventKind::Other));
}

#[test]
fn sync_step_indexes_only_new_entries() {
    assert_eq!(echojournal::vectors::sync_step(false, 0), (true, 1));
    assert_eq!(echojournal::vectors::sync_step(true, 3), (false, 3));
}

#[test]
fn second_sync_indexes_nothing() {
    let entries = vec![entry("2024-05-01", "09:00", "a", "X"), entry("2024-05-01", "10:00", "a", "Y"), entry("2024-05-02", "09:00", "b", "X")];
    let mut store: HashSet<String> = HashSet::new();
    let mut run = |store: &mut HashSet<String>| {
        let mut count = 0;
        for e in &entries {
            let id = journal_entry_id(e);
            let (index_it, next) = echojournal::vectors::sync_step(store.contains(&id), count);
            if index_it {
                store.insert(id);
            }
            count = next;
        }
        count
    };
    assert_eq!(run(&mut store), 2);
    assert_eq!(run(&mut store), 0);
}
