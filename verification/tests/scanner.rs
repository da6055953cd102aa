use fastfind::model::EntryKind;
use fastfind::scanner::{
    build_entry, closing_events, completed_event, entries_per_second, opening_events, entry_kind, health_after_scan, is_excluded,
    keep_walk_entry, mtime_ns, normalize_exclusions, progress_event, scanning_event, EntryMeta,
    ScanSession, WalkItem, BATCH_SIZE, PROGRESS_INTERVAL_MS,
};
use fastfind::{Index, ScanOutcome, TelemetryEvent};

fn file_meta(size: u64) -> EntryMeta {
    EntryMeta {
        is_file: true,
        is_dir: false,
        is_symlink: false,
        device_id: 3,
        inode: 77,
        size,
        mtime: 1_700_000_000,
        mtime_nsec: 5,
    }
}

fn dir_meta() -> EntryMeta {
    EntryMeta { is_file: false, is_dir: true, ..file_meta(0) }
}

fn found(path: &str, meta: EntryMeta) -> WalkItem {
    WalkItem::Found { path: path.as_bytes().to_vec(), metadata: Some(meta) }
}

fn scan_items(index: &mut Index, root: &str, generation: i64, items: Vec<WalkItem>) -> ScanOutcome {
    let mut session = ScanSession::begin(index, root.as_bytes(), 3, generation).unwrap();
    for item in items {
        session.observe(index, item, 0, 0).unwrap();
    }
    session.finish(index, 10_000, 12).unwrap()
}

#[test]
fn scanned_entries_are_searchable_and_deletions_reconciled() {
    let mut index = Index::new("/tmp/index/index.db".to_string());
    let first = scan_items(
        &mut index,
        "/data/files",
        1,
        vec![
            WalkItem::Root,
            found("/data/files/reports", dir_meta()),
            found("/data/files/reports/annual", dir_meta()),
            found("/data/files/reports/annual/report-2026.txt", file_meta(11)),
            found("/data/files/notes.md", file_meta(11)),
        ],
    );
    assert!(first.synchronized);
    assert_eq!(first.entries_seen, 4);
    assert_eq!(first.removed_entries, 0);
    let results = index.search("port-20", 20);
    assert_eq!(results.len(), 1);
    assert!(results[0].path.ends_with("report-2026.txt"));

    let second = scan_items(
        &mut index,
        "/data/files",
        2,
        vec![
            WalkItem::Root,
            found("/data/files/reports", dir_meta()),
            found("/data/files/reports/annual", dir_meta()),
            found("/data/files/reports/annual/report-2026.txt", file_meta(11)),
        ],
    );
    assert_eq!(second.removed_entries, 1);
    assert!(index.search("notes", 20).is_empty());
    assert_eq!(second.root_id, first.root_id);
}

#[test]
fn short_query_finds_a_scanned_readme() {
    let mut index = Index::new("/tmp/index.db".to_string());
    scan_items(&mut index, "/data/files", 1, vec![WalkItem::Root, found("/data/files/README", file_meta(0))]);
    let results = index.search("ad", 10);
    assert_eq!(results.len(), 1);
    assert_eq!(results[0].name, "README");
}

#[test]
fn walk_errors_degrade_the_scan_and_keep_old_entries() {
    let mut index = Index::new("db".to_string());
    scan_items(&mut index, "/r", 1, vec![found("/r/old.txt", file_meta(1))]);
    let outcome = scan_items(
        &mut index,
        "/r",
        2,
        vec![
            WalkItem::Unreadable,
            WalkItem::Found { path: b"/r/gone".to_vec(), metadata: None },
            found("/elsewhere/x", file_meta(1)),
            found("/r/new.txt", file_meta(1)),
        ],
    );
    assert_eq!(outcome.errors, 3);
    assert_eq!(outcome.entries_seen, 1);
    assert!(!outcome.synchronized);
    assert_eq!(outcome.removed_entries, 0);
    assert_eq!(index.search("old", 10).len(), 1);
    assert_eq!(index.statuses()[0].state, "degraded");
    assert_eq!(health_parts(&health_after_scan(&outcome, 5)), ("degraded", Some("scan_errors")));
}

fn reported_events(index: &mut Index, items: Vec<WalkItem>) -> (ScanOutcome, Vec<String>) {
    let mut session = ScanSession::begin(index, b"/r", 3, 1).unwrap();
    let mut events: Vec<TelemetryEvent> = opening_events(session.root_id(), 5, 6);
    for (i, item) in items.into_iter().enumerate() {
        let elapsed = 200 * i as u64;
        if let Some(event) = session.observe(index, item, elapsed, 1_000 + elapsed).unwrap() {
            events.push(event);
        }
    }
    let outcome = session.finish(index, 10_000, 12).unwrap();
    events.extend(closing_events(&outcome, 20, 21));
    (outcome, events.iter().map(|event| format!("{event:?}")).collect())
}

#[test]
fn renamed_trees_give_the_same_counts_and_events() {
    let tree = |names: [&str; 3]| {
        vec![
            WalkItem::Root,
            found(&format!("/r/{}", names[0]), dir_meta()),
            found(&format!("/r/{}/{}", names[0], names[1]), file_meta(4)),
            WalkItem::Unreadable,
            WalkItem::Found { path: format!("/r/{}", names[2]).into_bytes(), metadata: None },
        ]
    };
    let mut first = Index::new("a.db".to_string());
    let (a, events_a) = reported_events(&mut first, tree(["docs", "plan.txt", "lost"]));
    let mut second = Index::new("b.db".to_string());
    let (b, events_b) = reported_events(&mut second, tree(["Music", "song.flac", "x"]));
    assert_eq!((a.entries_seen, a.errors), (2, 2));
    assert_eq!((b.entries_seen, b.errors), (a.entries_seen, a.errors));
    assert_eq!(events_a.len(), 5);
    assert_eq!(events_a, events_b);
    assert!(events_a[2].contains("ScanProgress") && events_a[2].contains("elapsed_ms: 400"));
    assert!(events_a.iter().all(|event| !event.contains("plan") && !event.contains("docs")));
}

#[test]
fn a_progress_event_follows_an_entry_once_a_quarter_second_has_passed() {
    let mut index = Index::new("db".to_string());
    let mut session = ScanSession::begin(&mut index, b"/r", 3, 1).unwrap();
    assert!(session.observe(&mut index, found("/r/a", file_meta(1)), 100, 7).unwrap().is_none());
    assert!(session.observe(&mut index, WalkItem::Unreadable, 300, 7).unwrap().is_none());
    match session.observe(&mut index, found("/r/b", file_meta(1)), 260, 9).unwrap() {
        Some(TelemetryEvent::ScanProgress { timestamp_ms, root_id, entries_seen, errors, elapsed_ms, entries_per_second, .. }) => {
            assert_eq!((timestamp_ms, root_id, entries_seen, errors, elapsed_ms), (9, 1, 2, 1, 260));
            assert_eq!(entries_per_second, 7);
        }
        other => panic!("expected progress, got {other:?}"),
    }
    assert!(session.observe(&mut index, found("/r/c", file_meta(1)), 400, 9).unwrap().is_none());
    assert!(session.observe(&mut index, found("/r/d", file_meta(1)), 510, 9).unwrap().is_some());
}

fn health_parts(event: &TelemetryEvent) -> (&'static str, Option<&'static str>) {
    match event {
        TelemetryEvent::HealthChanged { state, reason, .. } => (state, *reason),
        other => panic!("not a health event: {other:?}"),
    }
}

#[test]
fn full_batches_are_written_during_the_scan() {
    let mut index = Index::new("db".to_string());
    let mut session = ScanSession::begin(&mut index, b"/r", 3, 1).unwrap();
    for i in 0..BATCH_SIZE {
        let path = format!("/r/f{i}");
        session.observe(&mut index, found(&path, file_meta(1)), 0, 0).unwrap();
    }
    assert_eq!(index.statuses()[0].entry_count, BATCH_SIZE as u64);
    assert_eq!(index.statuses()[0].state, "scanning");
    assert_eq!(session.entries_seen(), BATCH_SIZE as u64);
    let outcome = session.finish(&mut index, 1, 1).unwrap();
    assert_eq!(outcome.entries_seen, 2000);
    assert_eq!(index.statuses()[0].state, "live");
}

#[test]
fn a_session_starts_with_zero_counts() {
    let mut index = Index::new("db".to_string());
    let session = ScanSession::begin(&mut index, b"/r", 3, 1).unwrap();
    assert_eq!(session.root_id(), 1);
    assert_eq!(session.errors(), 0);
    assert_eq!(session.entries_seen(), 0);
    assert_eq!(index.statuses()[0].state, "scanning");
    assert_eq!(index.statuses()[0].path, "/r");
}

#[test]
fn entries_are_built_from_paths_below_the_root() {
    let built = build_entry(b"/data/files", b"/data/files/Reports/Q1.PDF", &file_meta(42)).unwrap();
    assert_eq!(built.relative_path, b"Reports/Q1.PDF");
    assert_eq!(built.display_path, "Reports/Q1.PDF");
    assert_eq!(built.name, b"Q1.PDF");
    assert_eq!(built.display_name, "Q1.PDF");
    assert_eq!(built.normalized_name, "q1.pdf");
    assert_eq!(built.kind, EntryKind::File);
    assert_eq!(built.size, 42);
    assert_eq!(built.inode, 77);
    assert_eq!(built.device_id, 3);
    assert_eq!(built.mtime_ns, 1_700_000_000_000_000_005);
    assert!(build_entry(b"/data/files", b"/data/files", &file_meta(1)).is_none());
    assert!(build_entry(b"/data/files", b"/other/x", &file_meta(1)).is_none());
    let unicode = build_entry(b"/r", "/r/\u{c4}RGER.txt".as_bytes(), &file_meta(1)).unwrap();
    assert_eq!(unicode.display_name, "\u{c4}RGER.txt");
    assert_eq!(unicode.normalized_name, "\u{e4}rger.txt");
    let lossy = build_entry(b"/r", b"/r/bad\xffname", &file_meta(1)).unwrap();
    assert_eq!(lossy.display_name, "bad\u{FFFD}name");
    assert_eq!(lossy.name, b"bad\xffname");
}

#[test]
fn kinds_follow_file_dir_symlink_precedence() {
    assert_eq!(entry_kind(&file_meta(0)), EntryKind::File);
    assert_eq!(entry_kind(&dir_meta()), EntryKind::Directory);
    let link = EntryMeta { is_file: false, is_dir: false, is_symlink: true, ..file_meta(0) };
    assert_eq!(entry_kind(&link), EntryKind::Symlink);
    let other = EntryMeta { is_symlink: false, ..link };
    assert_eq!(entry_kind(&other), EntryKind::Other);
}

#[test]
fn modification_times_saturate() {
    assert_eq!(mtime_ns(2, 3), 2_000_000_003);
    assert_eq!(mtime_ns(-1, 0), -1_000_000_000);
    assert_eq!(mtime_ns(i64::MAX, 5), i64::MAX);
    assert_eq!(mtime_ns(i64::MIN, -5), i64::MIN);
}

#[test]
fn exclusions_cover_database_companions() {
    let excluded = normalize_exclusions(&[b"/idx/index.db".to_vec()]);
    assert_eq!(
        excluded,
        vec![b"/idx/index.db".to_vec(), b"/idx/index.db-wal".to_vec(), b"/idx/index.db-shm".to_vec()]
    );
    assert!(is_excluded(b"/idx/index.db-wal", &excluded));
    assert!(is_excluded(b"/idx//index.db/", &excluded));
    assert!(!is_excluded(b"/idx/index.dbx", &excluded));
    assert!(keep_walk_entry(0, b"/idx/index.db", &excluded));
    assert!(!keep_walk_entry(1, b"/idx/index.db", &excluded));
    assert!(keep_walk_entry(1, b"/idx/other", &excluded));
}

#[test]
fn throughput_and_events_carry_exact_figures() {
    assert_eq!(entries_per_second(500, 250), 2000);
    assert_eq!(entries_per_second(5, 0), 0);
    assert_eq!(entries_per_second(u64::MAX, 1000), u64::MAX / 1000);
    assert_eq!(BATCH_SIZE, 2000);
    assert_eq!(PROGRESS_INTERVAL_MS, 250);
    match progress_event(4, 1000, 2, 500, 77) {
        TelemetryEvent::ScanProgress { schema_version, timestamp_ms, root_id, entries_seen, errors, elapsed_ms, entries_per_second } => {
            assert_eq!((schema_version, timestamp_ms, root_id, entries_seen, errors, elapsed_ms, entries_per_second), (1, 77, 4, 1000, 2, 500, 2000));
        }
        other => panic!("unexpected {other:?}"),
    }
    match scanning_event(9) {
        TelemetryEvent::HealthChanged { schema_version, timestamp_ms, state, reason } => {
            assert_eq!((schema_version, timestamp_ms, state, reason), (1, 9, "scanning", None));
        }
        other => panic!("unexpected {other:?}"),
    }
    let outcome = ScanOutcome { root_id: 2, entries_seen: 4, removed_entries: 1, errors: 0, elapsed_ms: 30, synchronized: true };
    match completed_event(&outcome, 11) {
        TelemetryEvent::ScanCompleted { root_id, entries_seen, removed_entries, errors, elapsed_ms, synchronized, timestamp_ms, .. } => {
            assert_eq!((root_id, entries_seen, removed_entries, errors, elapsed_ms, synchronized, timestamp_ms), (2, 4, 1, 0, 30, true, 11));
        }
        other => panic!("unexpected {other:?}"),
    }
    match health_after_scan(&outcome, 12) {
        TelemetryEvent::HealthChanged { state, reason, .. } => assert_eq!((state, reason), ("live", None)),
        other => panic!("unexpected {other:?}"),
    }
}

#[test]
fn flushing_writes_pending_entries_before_finishing() {
    let mut index = Index::new("db".to_string());
    let mut session = ScanSession::begin(&mut index, b"/r", 3, 1).unwrap();
    session.observe(&mut index, found("/r/a.txt", file_meta(1)), 0, 0).unwrap();
    assert_eq!(index.statuses()[0].entry_count, 0);
    session.flush(&mut index).unwrap();
    assert_eq!(index.statuses()[0].entry_count, 1);
    session.flush(&mut index).unwrap();
    let outcome = session.finish(&mut index, 5, 6).unwrap();
    assert_eq!(outcome.entries_seen, 1);
    assert_eq!(outcome.removed_entries, 0);
    assert_eq!(index.statuses()[0].entry_count, 1);
    assert_eq!(index.statuses()[0].last_scan_duration_ms, Some(6));
}

#[test]
fn progress_is_due_every_quarter_second_at_most() {
    assert!(!fastfind::scanner::progress_due(0, 249));
    assert!(fastfind::scanner::progress_due(0, 250));
    assert!(fastfind::scanner::progress_due(1000, 1250));
    assert!(!fastfind::scanner::progress_due(1000, 1100));
    assert!(!fastfind::scanner::progress_due(u64::MAX - 10, u64::MAX));
}
