use fastfind::model::EntryKind;
use fastfind::ui::{
    csv_field, csv_header, csv_row, kind_label, next_sort, sort_results, sort_title,
    visible_results, ResultFilter, SortColumn, UiCommand, UiState, WorkerEvent,
};
use fastfind::{RootStatus, SearchResult, TelemetryEvent};

fn root_status(path: &str, state: &str) -> RootStatus {
    RootStatus {
        id: 1,
        path: path.to_string(),
        device_id: 1,
        entry_count: 0,
        state: state.to_string(),
        last_scan_ms: None,
        last_scan_duration_ms: None,
        error_count: 0,
    }
}

fn result(id: i64, name: &str, kind: EntryKind, size: u64, modified_ns: i64) -> SearchResult {
    SearchResult {
        id,
        path: format!("/data/{name}"),
        name: name.to_string(),
        kind,
        size,
        modified_ns,
    }
}

fn names(results: &[SearchResult]) -> Vec<&str> {
    results.iter().map(|r| r.name.as_str()).collect()
}

#[test]
fn filters_have_labels_in_menu_order() {
    let labels: Vec<&str> = ResultFilter::all().into_iter().map(|f| f.label()).collect();
    assert_eq!(
        labels,
        ["Everything", "Audio", "Compressed", "Document", "Executable", "Folder", "Image", "Video"]
    );
}

#[test]
fn filters_admit_by_kind_and_extension() {
    let song = result(1, "Song.MP3", EntryKind::File, 1, 0);
    let folder = result(2, "music.mp3", EntryKind::Directory, 0, 0);
    let hidden = result(3, ".mp3", EntryKind::File, 1, 0);
    let link = result(4, "doc.pdf", EntryKind::Symlink, 1, 0);
    assert!(ResultFilter::Audio.matches(&song));
    assert!(!ResultFilter::Audio.matches(&folder));
    assert!(!ResultFilter::Audio.matches(&hidden));
    assert!(ResultFilter::Folders.matches(&folder));
    assert!(!ResultFilter::Folders.matches(&song));
    assert!(ResultFilter::Documents.matches(&link));
    assert!(ResultFilter::Everything.matches(&hidden));
    assert!(ResultFilter::Archives.matches(&result(5, "a.tar.gz", EntryKind::File, 1, 0)));
    assert!(!ResultFilter::Images.matches(&result(6, "noext", EntryKind::File, 1, 0)));
}

#[test]
fn visible_results_apply_filter_and_case_sensitive_query() {
    let results = vec![
        result(1, "Report.pdf", EntryKind::File, 1, 0),
        result(2, "report.txt", EntryKind::File, 1, 0),
        result(3, "photo.jpg", EntryKind::File, 1, 0),
    ];
    assert_eq!(names(&visible_results(&results, ResultFilter::Documents, false, "x")), ["Report.pdf", "report.txt"]);
    assert_eq!(names(&visible_results(&results, ResultFilter::Everything, true, "Rep")), ["Report.pdf"]);
    assert_eq!(names(&visible_results(&results, ResultFilter::Everything, true, "")).len(), 3);
}

#[test]
fn sorting_is_stable_and_honours_direction() {
    let mut results = vec![
        result(1, "b", EntryKind::File, 10, 5),
        result(2, "A", EntryKind::File, 30, 7),
        result(3, "c", EntryKind::Directory, 10, 6),
    ];
    sort_results(&mut results, SortColumn::Name, false);
    assert_eq!(names(&results), ["A", "b", "c"]);
    sort_results(&mut results, SortColumn::Size, true);
    assert_eq!(names(&results), ["A", "b", "c"]);
    sort_results(&mut results, SortColumn::Size, false);
    assert_eq!(names(&results), ["b", "c", "A"]);
    sort_results(&mut results, SortColumn::Modified, true);
    assert_eq!(names(&results), ["A", "c", "b"]);
    sort_results(&mut results, SortColumn::Type, false);
    assert_eq!(names(&results), ["A", "b", "c"]);
}

#[test]
fn clicking_headers_toggles_or_switches_columns() {
    assert_eq!(next_sort(SortColumn::Name, false, SortColumn::Name), (SortColumn::Name, true));
    assert_eq!(next_sort(SortColumn::Name, true, SortColumn::Size), (SortColumn::Size, true));
    assert_eq!(next_sort(SortColumn::Size, true, SortColumn::Modified), (SortColumn::Modified, true));
    assert_eq!(next_sort(SortColumn::Size, true, SortColumn::Path), (SortColumn::Path, false));
    assert_eq!(sort_title("Name", true, false), "Name \u{25B2}");
    assert_eq!(sort_title("Size", true, true), "Size \u{25BC}");
    assert_eq!(sort_title("Path", false, true), "Path");
}

#[test]
fn csv_lines_quote_text_fields() {
    assert_eq!(csv_header(), "Name,Path,Size,Date Modified,Type");
    assert_eq!(csv_field("say \"hi\""), "\"say \"\"hi\"\"\"");
    let r = result(1, "a,b", EntryKind::Symlink, 42, 0);
    assert_eq!(csv_row(&r, "2024-01-01 10:00"), "\"a,b\",\"/data/a,b\",42,\"2024-01-01 10:00\",\"Symbolic link\"");
    assert_eq!(kind_label(EntryKind::File), "File");
    assert_eq!(kind_label(EntryKind::Directory), "Folder");
    assert_eq!(kind_label(EntryKind::Other), "Other");
}

#[test]
fn window_state_follows_worker_reports() {
    let mut state = UiState::new(String::new());
    assert_eq!(state.health, "initializing");
    assert_eq!(state.request_id, 1);
    state.query = "rep".to_string();
    match state.search_command() {
        UiCommand::Search { request_id, query, match_path } => {
            assert_eq!(request_id, 2);
            assert_eq!(query, "rep");
            assert!(!match_path);
        }
        _ => panic!("expected a search"),
    }
    assert_eq!(state.detail, "Searching\u{2026}");

    let stale = state.on_worker_event(WorkerEvent::Results { request_id: 1, results: vec![result(9, "x", EntryKind::File, 1, 0)], elapsed_ms: 3 });
    assert!(stale.is_empty());
    assert!(state.results.is_empty());

    let fresh = state.on_worker_event(WorkerEvent::Results {
        request_id: 2,
        results: vec![result(1, "b", EntryKind::File, 1, 0), result(2, "a", EntryKind::File, 1, 0)],
        elapsed_ms: 4,
    });
    assert!(fresh.is_empty());
    assert_eq!(names(&state.results), ["a", "b"]);
    assert_eq!(state.query_latency_ms, 4);
    assert_eq!(state.detail, "2 indexed matches");

    let degraded_root = RootStatus {
        id: 1,
        path: "/r".to_string(),
        device_id: 1,
        entry_count: 0,
        state: "degraded".to_string(),
        last_scan_ms: None,
        last_scan_duration_ms: None,
        error_count: 1,
    };
    state.on_worker_event(WorkerEvent::Ready(vec![degraded_root]));
    assert_eq!(state.health, "degraded");
    assert_eq!(state.roots.len(), 1);

    let after_scan = state.on_worker_event(WorkerEvent::ScanFinished);
    assert_eq!(after_scan.len(), 2);
    assert!(matches!(after_scan[0], UiCommand::RefreshStatus));
    assert!(matches!(after_scan[1], UiCommand::Search { request_id: 3, .. }));

    let changed = state.on_worker_event(WorkerEvent::IndexChanged(5));
    assert_eq!(changed.len(), 1);
    assert_eq!(state.health, "live");

    state.on_worker_event(WorkerEvent::WatcherDegraded("watch limit".to_string()));
    assert_eq!(state.health, "degraded");
    assert_eq!(state.detail, "watch limit");
    state.on_worker_event(WorkerEvent::Error("boom".to_string()));
    assert_eq!(state.health, "error");
    assert_eq!(state.detail, "boom");
}

#[test]
fn window_state_follows_telemetry() {
    let mut state = UiState::new(String::new());
    state.on_telemetry(&TelemetryEvent::HealthChanged { schema_version: 1, timestamp_ms: 0, state: "degraded", reason: Some("scan_errors") });
    assert_eq!(state.health, "degraded");
    assert_eq!(state.detail, "scan errors");
    state.on_telemetry(&TelemetryEvent::ScanStarted { schema_version: 1, timestamp_ms: 0, root_id: 3 });
    assert_eq!(state.detail, "Indexing root 3");
    state.on_telemetry(&TelemetryEvent::ScanProgress { schema_version: 1, timestamp_ms: 0, root_id: 3, entries_seen: 120, errors: 1, elapsed_ms: 10, entries_per_second: 12000 });
    assert_eq!(state.detail, "Indexing 120 objects");
    assert_eq!(state.scan_rate, 12000);
    state.on_telemetry(&TelemetryEvent::ScanCompleted { schema_version: 1, timestamp_ms: 0, root_id: 3, entries_seen: 130, removed_entries: 0, errors: 2, elapsed_ms: 11, synchronized: false });
    assert_eq!(state.detail, "Indexed with 2 errors; reconciliation required");
    state.on_telemetry(&TelemetryEvent::QueryCompleted { schema_version: 1, timestamp_ms: 0, query_length: 1, result_count: 0, elapsed_ms: 8 });
    assert_eq!(state.query_latency_ms, 8);
}

#[test]
fn changing_the_sort_column_resorts_results() {
    let mut state = UiState::new(String::new());
    state.results = vec![result(1, "small", EntryKind::File, 1, 0), result(2, "big", EntryKind::File, 9, 0)];
    state.set_sort(SortColumn::Size);
    assert_eq!(state.sort_column, SortColumn::Size);
    assert!(state.sort_descending);
    assert_eq!(names(&state.results), ["big", "small"]);
    state.set_sort(SortColumn::Size);
    assert!(!state.sort_descending);
    assert_eq!(names(&state.results), ["small", "big"]);
}

#[test]
fn status_bar_shows_counts_scan_figures_and_health() {
    let mut state = UiState::new(String::new());
    state.results = vec![
        result(1, "a.mp3", EntryKind::File, 1, 0),
        result(2, "b.txt", EntryKind::File, 1, 0),
        result(3, "c", EntryKind::Directory, 1, 0),
    ];
    state.filter = ResultFilter::Audio;
    assert_eq!(state.visible_count(), 1);
    state.health = "scanning".to_string();
    state.scan_seen = 120;
    state.scan_rate = 40;
    state.scan_errors = 2;
    state.query_latency_ms = 7;
    state.match_path = true;
    let bar = state.status_bar();
    assert_eq!(bar.objects, "1 objects");
    assert_eq!(bar.scan.as_deref(), Some("120 objects \u{b7} 40/s"));
    assert_eq!(bar.errors.as_deref(), Some("2 errors"));
    assert_eq!(bar.latency, "7 ms");
    assert!(bar.path_mode);
    assert_eq!(bar.health, "SCANNING");
    assert_eq!(bar.detail, "Opening index\u{2026}");

    state.health = "live".to_string();
    state.scan_errors = 0;
    let calm = state.status_bar();
    assert!(calm.scan.is_none());
    assert!(calm.errors.is_none());
}

#[test]
fn selection_finds_the_first_result_with_the_id() {
    let mut state = UiState::new(String::new());
    state.results = vec![
        result(5, "first", EntryKind::File, 1, 0),
        result(7, "second", EntryKind::File, 1, 0),
        result(7, "third", EntryKind::File, 1, 0),
    ];
    assert!(state.selected().is_none());
    state.selected_id = Some(7);
    assert_eq!(state.selected().unwrap().name, "second");
    state.selected_id = Some(9);
    assert!(state.selected().is_none());
}

#[test]
fn the_folder_dialog_starts_at_the_home_directory() {
    let mut state = UiState::new("/home/ada".to_string());
    assert_eq!(state.root_input, "/home/ada");
    assert!(!state.show_add_root);
    state.open_index_folder();
    assert_eq!(state.index_folder_path(), "/home/ada");
}

#[test]
fn dialogs_and_menus_issue_worker_commands() {
    let mut state = UiState::new(String::new());
    state.roots = vec![root_status("/a", "live"), root_status("/b", "live")];
    let scans: Vec<String> = state
        .reindex_all()
        .into_iter()
        .map(|command| match command {
            UiCommand::Scan { path } => path,
            _ => panic!("expected a scan"),
        })
        .collect();
    assert_eq!(scans, ["/a", "/b"]);

    assert!(!state.show_add_root);
    state.open_index_folder();
    assert!(state.show_add_root);
    state.root_input = "  /missing \t".to_string();
    assert_eq!(state.index_folder_path(), "/missing");
    assert!(state.submit_index_folder(false).is_none());
    assert_eq!(state.detail, "That directory does not exist");
    assert!(state.show_add_root);
    state.root_input = "\u{3000} /home/user\n".to_string();
    assert_eq!(state.index_folder_path(), "/home/user");
    match state.submit_index_folder(true) {
        Some(UiCommand::Scan { path }) => assert_eq!(path, "/home/user"),
        _ => panic!("expected a scan"),
    }
    assert_eq!(state.health, "scanning");
    assert!(!state.show_add_root);
    state.open_index_folder();
    state.cancel_index_folder();
    assert!(!state.show_add_root);
}

#[test]
fn query_edits_and_path_matching_start_searches() {
    let mut state = UiState::new(String::new());
    match state.current_search() {
        UiCommand::Search { request_id, query, match_path } => {
            assert_eq!((request_id, query.as_str(), match_path), (1, "", false));
        }
        _ => panic!("expected a search"),
    }
    state.query = "abc".to_string();
    match state.clear_query() {
        UiCommand::Search { request_id, query, .. } => {
            assert_eq!(request_id, 2);
            assert_eq!(query, "");
        }
        _ => panic!("expected a search"),
    }
    assert!(state.set_match_path(false).is_none());
    match state.set_match_path(true) {
        Some(UiCommand::Search { request_id, match_path, .. }) => {
            assert_eq!(request_id, 3);
            assert!(match_path);
        }
        _ => panic!("expected a search"),
    }
    state.request_id = u64::MAX;
    match state.search_command() {
        UiCommand::Search { request_id, .. } => assert_eq!(request_id, 0),
        _ => panic!("expected a search"),
    }
}
