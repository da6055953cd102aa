use fastfind::db::{EntryRow, IndexError, RootRow, RootState};
use fastfind::model::{EntryKind, IndexedEntry};
use fastfind::query::{QueryError, SearchOptions};
use fastfind::Index;

fn entry(relative: &str, kind: EntryKind, size: u64) -> IndexedEntry {
    let name = relative.rsplit('/').next().unwrap().to_string();
    IndexedEntry {
        relative_path: relative.as_bytes().to_vec(),
        display_path: relative.to_string(),
        name: name.as_bytes().to_vec(),
        normalized_name: name.to_lowercase(),
        display_name: name,
        kind,
        device_id: 7,
        inode: size + 100,
        size,
        mtime_ns: 1_700_000_000_000_000_000,
    }
}

fn sample_index() -> (Index, i64) {
    let mut index = Index::new("/tmp/index.db".to_string());
    let root = index.register_root("/data/files", 7).unwrap();
    index.begin_scan(root);
    let batch = vec![
        entry("reports", EntryKind::Directory, 0),
        entry("reports/annual", EntryKind::Directory, 0),
        entry("reports/annual/report-2026.txt", EntryKind::File, 11),
        entry("notes.md", EntryKind::File, 11),
        entry("README", EntryKind::File, 0),
    ];
    index.upsert_batch(root, 1, &batch).unwrap();
    index.finish_scan(root, 1, 1_000, 5, 0);
    (index, root)
}

#[test]
fn new_index_is_empty_and_keeps_its_path() {
    let index = Index::new("/var/lib/fastfind/index.db".to_string());
    assert_eq!(index.path(), "/var/lib/fastfind/index.db");
    assert!(index.statuses().is_empty());
    assert!(index.search("a", 10).is_empty());
}

#[test]
fn registering_a_root_twice_keeps_its_id_and_updates_the_device() {
    let mut index = Index::new("db".to_string());
    let first = index.register_root("/home/user", 1).unwrap();
    let other = index.register_root("/srv", 2).unwrap();
    let again = index.register_root("/home/user", 9).unwrap();
    assert_eq!(first, 1);
    assert_eq!(other, 2);
    assert_eq!(again, first);
    let statuses = index.statuses();
    assert_eq!(statuses.len(), 2);
    assert_eq!(statuses[0].path, "/home/user");
    assert_eq!(statuses[0].device_id, 9);
    assert_eq!(statuses[0].state, "initializing");
    assert_eq!(statuses[1].path, "/srv");
}

#[test]
fn search_finds_substrings_case_insensitively_shortest_first() {
    let (index, _) = sample_index();
    let results = index.search("port-20", 20);
    assert_eq!(results.len(), 1);
    assert!(results[0].path.ends_with("report-2026.txt"));
    assert_eq!(results[0].path, "/data/files/reports/annual/report-2026.txt");
    assert_eq!(results[0].name, "report-2026.txt");
    assert_eq!(results[0].kind, EntryKind::File);
    assert_eq!(results[0].size, 11);

    let short = index.search("ad", 10);
    assert_eq!(short.len(), 1);
    assert_eq!(short[0].name, "README");

    let ordered = index.search("RE", 10);
    let names: Vec<&str> = ordered.iter().map(|r| r.name.as_str()).collect();
    assert_eq!(names, ["README", "reports", "report-2026.txt"]);
}

#[test]
fn search_respects_the_limit() {
    let (index, _) = sample_index();
    let limited = index.search("re", 2);
    let names: Vec<&str> = limited.iter().map(|r| r.name.as_str()).collect();
    assert_eq!(names, ["README", "reports"]);
    assert!(index.search("re", 0).is_empty());
}

#[test]
fn upsert_replaces_an_entry_with_the_same_relative_path() {
    let (mut index, root) = sample_index();
    let before = index.search("notes", 10);
    assert_eq!(before.len(), 1);
    let id = before[0].id;
    index.upsert_batch(root, 2, &[entry("notes.md", EntryKind::File, 99)]).unwrap();
    let after = index.search("notes", 10);
    assert_eq!(after.len(), 1);
    assert_eq!(after[0].id, id);
    assert_eq!(after[0].size, 99);
}

#[test]
fn new_entries_take_one_more_than_the_largest_id_left() {
    let (mut index, root) = sample_index();
    assert_eq!(index.search("readme", 10)[0].id, 5);
    assert_eq!(index.delete_subtree(root, b"README"), 1);
    index.upsert_batch(root, 2, &[entry("later.txt", EntryKind::File, 3)]).unwrap();
    assert_eq!(index.search("later", 10)[0].id, 5);

    assert_eq!(index.delete_subtree(root, b"notes.md"), 1);
    index.upsert_batch(root, 2, &[entry("again.txt", EntryKind::File, 3)]).unwrap();
    assert_eq!(index.search("again", 10)[0].id, 6);
}

#[test]
fn upsert_below_an_unknown_root_is_refused() {
    let (mut index, _) = sample_index();
    let result = index.upsert_batch(42, 1, &[entry("x", EntryKind::File, 1)]);
    assert_eq!(result, Err(IndexError::UnknownRoot));
    assert!(index.search("x", 10).iter().all(|r| r.name != "x"));
}

#[test]
fn an_empty_batch_succeeds_whatever_the_root() {
    let (mut index, root) = sample_index();
    assert_eq!(index.upsert_batch(42, 1, &[]), Ok(()));
    assert_eq!(index.upsert_batch(root, 9, &[]), Ok(()));
    assert_eq!(index.search("re", 10).len(), 3);
}

#[test]
fn delete_subtree_removes_the_path_and_everything_below_only() {
    let (mut index, root) = sample_index();
    index.upsert_batch(root, 1, &[entry("reportsX", EntryKind::File, 1)]).unwrap();
    let removed = index.delete_subtree(root, b"reports");
    assert_eq!(removed, 3);
    assert!(index.search("report-2026", 10).is_empty());
    assert_eq!(index.search("reportsx", 10).len(), 1);
    assert_eq!(index.search("notes", 10).len(), 1);
    assert_eq!(index.delete_subtree(root, b"reports"), 0);
}

#[test]
fn error_free_scan_removes_entries_of_older_generations() {
    let (mut index, root) = sample_index();
    index.begin_scan(root);
    let seen = vec![
        entry("reports", EntryKind::Directory, 0),
        entry("reports/annual", EntryKind::Directory, 0),
        entry("reports/annual/report-2026.txt", EntryKind::File, 11),
        entry("README", EntryKind::File, 0),
    ];
    index.upsert_batch(root, 2, &seen).unwrap();
    let removed = index.finish_scan(root, 2, 2_000, 9, 0);
    assert_eq!(removed, 1);
    assert!(index.search("notes", 20).is_empty());
    let status = &index.statuses()[0];
    assert_eq!(status.state, "live");
    assert_eq!(status.entry_count, 4);
    assert_eq!(status.last_scan_ms, Some(2_000));
    assert_eq!(status.last_scan_duration_ms, Some(9));
    assert_eq!(status.error_count, 0);
}

#[test]
fn scan_with_errors_keeps_stale_entries_and_degrades_the_root() {
    let (mut index, root) = sample_index();
    index.begin_scan(root);
    index.upsert_batch(root, 2, &[entry("README", EntryKind::File, 0)]).unwrap();
    let removed = index.finish_scan(root, 2, 3_000, 4, 2);
    assert_eq!(removed, 0);
    assert_eq!(index.search("notes", 20).len(), 1);
    let status = &index.statuses()[0];
    assert_eq!(status.state, "degraded");
    assert_eq!(status.error_count, 2);
    assert_eq!(status.entry_count, 5);
}

#[test]
fn begin_scan_marks_scanning_and_clears_errors() {
    let (mut index, root) = sample_index();
    index.finish_scan(root, 1, 1_500, 1, 3);
    assert_eq!(index.statuses()[0].error_count, 3);
    index.begin_scan(root);
    let status = &index.statuses()[0];
    assert_eq!(status.state, "scanning");
    assert_eq!(status.error_count, 0);
    assert_eq!(status.last_scan_ms, Some(1_500));
}

#[test]
fn statuses_are_ordered_by_path_with_entry_counts() {
    let mut index = Index::new("db".to_string());
    let b = index.register_root("/b", 1).unwrap();
    let a = index.register_root("/a", 1).unwrap();
    index.upsert_batch(b, 1, &[entry("x", EntryKind::File, 1), entry("y", EntryKind::File, 1)]).unwrap();
    let statuses = index.statuses();
    assert_eq!(statuses.len(), 2);
    assert_eq!(statuses[0].id, a);
    assert_eq!(statuses[0].entry_count, 0);
    assert_eq!(statuses[1].id, b);
    assert_eq!(statuses[1].entry_count, 2);
    assert_eq!(statuses[1].last_scan_ms, None);
}

#[test]
fn search_with_options_applies_path_terms_and_wildcards() {
    let (index, _) = sample_index();
    let by_path = index
        .search_with_options("path:annual report", 10, SearchOptions::default())
        .unwrap();
    let names: Vec<&str> = by_path.iter().map(|r| r.name.as_str()).collect();
    assert_eq!(names, ["report-2026.txt"]);

    let globbed = index
        .search_with_options("*.md", 10, SearchOptions::default())
        .unwrap();
    assert_eq!(globbed.len(), 1);
    assert_eq!(globbed[0].name, "notes.md");

    let whole_path = index
        .search_with_options("files", 10, SearchOptions { match_path: true })
        .unwrap();
    assert_eq!(whole_path.len(), 5);
    let names_only = index
        .search_with_options("files", 10, SearchOptions::default())
        .unwrap();
    assert!(names_only.is_empty());

    assert_eq!(
        index.search_with_options("path:", 10, SearchOptions::default()).unwrap_err(),
        QueryError::EmptyPathTerm
    );
}

#[test]
fn snapshot_and_restore_give_back_the_same_index() {
    let (index, root) = sample_index();
    let (roots, entries) = index.snapshot();
    assert_eq!(roots.len(), 1);
    assert_eq!(entries.len(), 5);
    assert_eq!(roots[0].id, root);
    assert_eq!(roots[0].state, RootState::Live);
    let restored = Index::restore("/tmp/index.db".to_string(), &roots, &entries).unwrap();
    let a = index.search("re", 10);
    let b = restored.search("re", 10);
    assert_eq!(a.len(), b.len());
    for (x, y) in a.iter().zip(b.iter()) {
        assert_eq!(x.id, y.id);
        assert_eq!(x.path, y.path);
        assert_eq!(x.name, y.name);
    }
    let s1 = index.statuses();
    let s2 = restored.statuses();
    assert_eq!(s1[0].entry_count, s2[0].entry_count);
    assert_eq!(s1[0].state, s2[0].state);
}

#[test]
fn restore_refuses_inconsistent_rows() {
    let root = RootRow {
        id: 1,
        path: "/r".to_string(),
        device_id: 1,
        state: RootState::Live,
        last_scan_ms: None,
        last_scan_duration_ms: None,
        error_count: 0,
    };
    let orphan = EntryRow { id: 1, root_id: 2, entry: entry("a", EntryKind::File, 1), generation: 1 };
    assert!(matches!(
        Index::restore("db".to_string(), &[root], &[orphan]),
        Err(IndexError::InconsistentRows)
    ));
    let r1 = RootRow { id: 1, path: "/r".to_string(), device_id: 1, state: RootState::Live, last_scan_ms: None, last_scan_duration_ms: None, error_count: 0 };
    let r2 = RootRow { id: 1, path: "/s".to_string(), device_id: 1, state: RootState::Live, last_scan_ms: None, last_scan_duration_ms: None, error_count: 0 };
    assert!(Index::restore("db".to_string(), &[r1, r2], &[]).is_err());
    let r3 = RootRow { id: 3, path: "/r".to_string(), device_id: 1, state: RootState::Live, last_scan_ms: None, last_scan_duration_ms: None, error_count: 0 };
    let e1 = EntryRow { id: 5, root_id: 3, entry: entry("a", EntryKind::File, 1), generation: 1 };
    let e2 = EntryRow { id: 5, root_id: 3, entry: entry("b", EntryKind::File, 1), generation: 1 };
    assert!(Index::restore("db".to_string(), &[r3], &[e1, e2]).is_err());
}

#[test]
fn restored_index_hands_out_fresh_ids() {
    let root = RootRow { id: 4, path: "/r".to_string(), device_id: 1, state: RootState::Live, last_scan_ms: None, last_scan_duration_ms: None, error_count: 0 };
    let e = EntryRow { id: 10, root_id: 4, entry: entry("a", EntryKind::File, 1), generation: 1 };
    let mut index = Index::restore("db".to_string(), &[root], &[e]).unwrap();
    assert_eq!(index.register_root("/s", 1).unwrap(), 5);
    index.upsert_batch(4, 2, &[entry("b", EntryKind::File, 1)]).unwrap();
    let results = index.search("b", 10);
    assert_eq!(results.len(), 1);
    assert_eq!(results[0].id, 11);
}

fn live_root(id: i64, path: &str) -> RootRow {
    RootRow { id, path: path.to_string(), device_id: 1, state: RootState::Live, last_scan_ms: None, last_scan_duration_ms: None, error_count: 0 }
}

#[test]
fn rows_with_any_ids_are_read_back() {
    let roots = [live_root(0, "/zero"), live_root(-7, "/minus")];
    let entries = [
        EntryRow { id: -3, root_id: 0, entry: entry("a", EntryKind::File, 1), generation: 1 },
        EntryRow { id: -9, root_id: -7, entry: entry("b", EntryKind::File, 1), generation: 1 },
    ];
    let mut index = Index::restore("db".to_string(), &roots, &entries).unwrap();
    assert_eq!(index.search("a", 10)[0].id, -3);
    assert_eq!(index.register_root("/new", 1).unwrap(), 1);
    index.upsert_batch(0, 2, &[entry("c", EntryKind::File, 1)]).unwrap();
    assert_eq!(index.search("c", 10)[0].id, -2);
}

#[test]
fn past_the_largest_id_the_smallest_free_one_is_taken() {
    let roots = [live_root(i64::MAX, "/top"), live_root(1, "/one")];
    let entries = [
        EntryRow { id: i64::MAX, root_id: 1, entry: entry("a", EntryKind::File, 1), generation: 1 },
        EntryRow { id: 1, root_id: 1, entry: entry("b", EntryKind::File, 1), generation: 1 },
    ];
    let mut index = Index::restore("db".to_string(), &roots, &entries).unwrap();
    assert_eq!(index.register_root("/two", 1).unwrap(), 2);
    assert_eq!(index.register_root("/three", 1).unwrap(), 3);
    assert_eq!(index.register_root("/two", 5).unwrap(), 2);
    index.upsert_batch(1, 2, &[entry("c", EntryKind::File, 1), entry("d", EntryKind::File, 1)]).unwrap();
    assert_eq!(index.search("c", 10)[0].id, 2);
    assert_eq!(index.search("d", 10)[0].id, 3);
}

#[test]
fn root_state_labels_are_exact() {
    assert_eq!(RootState::Initializing.label(), "initializing");
    assert_eq!(RootState::Scanning.label(), "scanning");
    assert_eq!(RootState::Live.label(), "live");
    assert_eq!(RootState::Degraded.label(), "degraded");
}

#[test]
fn writing_a_batch_in_two_parts_equals_writing_it_at_once() {
    let mut split = Index::new("a".to_string());
    let mut whole = Index::new("b".to_string());
    let r1 = split.register_root("/r", 1).unwrap();
    let r2 = whole.register_root("/r", 1).unwrap();
    split.upsert_batch(r1, 5, &[entry("x", EntryKind::File, 1), entry("y", EntryKind::File, 2)]).unwrap();
    split.upsert_batch(r1, 5, &[entry("x", EntryKind::File, 3), entry("z", EntryKind::File, 4)]).unwrap();
    whole
        .upsert_batch(
            r2,
            5,
            &[
                entry("x", EntryKind::File, 1),
                entry("y", EntryKind::File, 2),
                entry("x", EntryKind::File, 3),
                entry("z", EntryKind::File, 4),
            ],
        )
        .unwrap();
    let a = split.search("", 10);
    let b = whole.search("", 10);
    let view = |results: &[fastfind::SearchResult]| -> Vec<(String, u64)> {
        results.iter().map(|r| (r.name.clone(), r.size)).collect()
    };
    assert_eq!(view(&a), view(&b));
    assert_eq!(view(&a), [("x".to_string(), 3), ("y".to_string(), 2), ("z".to_string(), 4)]);
}
