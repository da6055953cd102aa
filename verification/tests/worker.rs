use fastfind::model::EntryKind;
use fastfind::query::QueryError;
use fastfind::ui::WorkerEvent;
use fastfind::worker::{search_report, startup, update_report, watcher_unavailable, WorkerState, RESULT_LIMIT};
use fastfind::{RootStatus, SearchResult};

fn status(path: &str) -> RootStatus {
    RootStatus {
        id: 1,
        path: path.to_string(),
        device_id: 1,
        entry_count: 0,
        state: "live".to_string(),
        last_scan_ms: None,
        last_scan_duration_ms: None,
        error_count: 0,
    }
}

#[test]
fn startup_scans_home_only_without_roots() {
    let empty = startup(Vec::new(), Some("/home/me".to_string()));
    assert!(empty.watch.is_empty());
    assert_eq!(empty.scan_home.as_deref(), Some("/home/me"));
    assert!(matches!(empty.ready, WorkerEvent::Ready(ref s) if s.is_empty()));

    let indexed = startup(vec![status("/data"), status("/srv")], Some("/home/me".to_string()));
    assert_eq!(indexed.watch, ["/data", "/srv"]);
    assert!(indexed.scan_home.is_none());
    assert!(matches!(indexed.ready, WorkerEvent::Ready(ref s) if s.len() == 2));

    let homeless = startup(Vec::new(), None);
    assert!(homeless.scan_home.is_none());
    assert_eq!(RESULT_LIMIT, 5000);
}

#[test]
fn search_reports_results_or_the_parse_error() {
    let hit = SearchResult { id: 1, path: "/a".to_string(), name: "a".to_string(), kind: EntryKind::File, size: 0, modified_ns: 0 };
    match search_report(4, Ok(vec![hit]), 9) {
        WorkerEvent::Results { request_id, results, elapsed_ms } => {
            assert_eq!((request_id, results.len(), elapsed_ms), (4, 1, 9));
        }
        _ => panic!("expected results"),
    }
    match search_report(4, Err(QueryError::EmptyPathTerm), 9) {
        WorkerEvent::Error(message) => assert_eq!(message, "Search failed: path: requires a path fragment"),
        _ => panic!("expected an error"),
    }
}

#[test]
fn live_updates_report_changes_only() {
    let events = update_report(Ok(3), vec![status("/data")]);
    assert_eq!(events.len(), 2);
    assert!(matches!(events[0], WorkerEvent::IndexChanged(3)));
    assert!(matches!(events[1], WorkerEvent::Ready(ref s) if s.len() == 1));
    assert!(update_report(Ok(0), Vec::new()).is_empty());
    let failed = update_report(Err("permission denied".to_string()), Vec::new());
    assert!(matches!(&failed[0], WorkerEvent::WatcherDegraded(m) if m == "Live update failed: permission denied"));
    assert!(matches!(watcher_unavailable("no inotify"), WorkerEvent::WatcherDegraded(ref m) if m == "Live monitoring unavailable: no inotify"));
}

#[test]
fn lost_events_queue_one_rescan_until_a_scan_succeeds() {
    let mut state = WorkerState::new();
    let roots = vec![status("/data"), status("/srv")];
    let (event, rescans) = state.watch_error("overflow", &roots);
    assert!(matches!(event, WorkerEvent::WatcherDegraded(ref m) if m == "Watcher lost events; reconciliation queued: overflow"));
    assert_eq!(rescans, ["/data", "/srv"]);
    assert!(state.recovery_queued());
    let (_, again) = state.watch_error("overflow", &roots);
    assert!(again.is_empty());
    assert!(matches!(state.scan_report(Err("gone".to_string())), WorkerEvent::Error(ref m) if m == "Indexing failed: gone"));
    assert!(state.recovery_queued());
    assert!(matches!(state.scan_report(Ok(())), WorkerEvent::ScanFinished));
    assert!(!state.recovery_queued());
    let (_, after) = state.watch_error("overflow", &roots);
    assert_eq!(after.len(), 2);
}

#[test]
fn watched_paths_compare_as_paths() {
    let mut state = WorkerState::new();
    assert!(state.needs_watch(b"/data"));
    state.watching(b"/data/");
    assert!(!state.needs_watch(b"/data"));
    assert!(!state.needs_watch(b"//data"));
    assert!(state.needs_watch(b"/database"));
}
