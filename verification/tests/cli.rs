use fastfind::cli::{default_database_location, query_event, status_line};
use fastfind::{RootStatus, TelemetryEvent};

#[test]
fn the_default_database_follows_xdg_then_home_then_the_working_directory() {
    let xdg: &[u8] = b"/data";
    let home: &[u8] = b"/home/ada/";
    let cwd: &[u8] = b"/work";
    assert_eq!(default_database_location(Some(xdg), Some(home), cwd), b"/data/fastfind/index.db".to_vec());
    assert_eq!(
        default_database_location(None, Some(home), cwd),
        b"/home/ada/.local/share/fastfind/index.db".to_vec()
    );
    assert_eq!(default_database_location(None, None, cwd), b"/work/fastfind.db".to_vec());
    assert_eq!(default_database_location(Some(b""), None, cwd), b"fastfind/index.db".to_vec());
}

fn status(last_scan_ms: Option<i64>) -> RootStatus {
    RootStatus {
        id: 1,
        path: "/srv".to_string(),
        device_id: 2,
        entry_count: 42,
        state: "live".to_string(),
        last_scan_ms,
        last_scan_duration_ms: None,
        error_count: 3,
    }
}

#[test]
fn status_lines_list_state_counts_path_and_last_scan() {
    assert_eq!(status_line(&status(Some(1_700))), "live\t42 entries\t/srv\t3 errors\t1700");
    assert_eq!(status_line(&status(None)), "live\t42 entries\t/srv\t3 errors\tnever");
    assert_eq!(status_line(&status(Some(-5))), "live\t42 entries\t/srv\t3 errors\t-5");
}

#[test]
fn a_query_event_counts_characters_not_bytes() {
    match query_event("héllo wörld", 7, 12, 99) {
        TelemetryEvent::QueryCompleted { schema_version, timestamp_ms, query_length, result_count, elapsed_ms } => {
            assert_eq!((schema_version, timestamp_ms, query_length, result_count, elapsed_ms), (1, 99, 11, 7, 12));
        }
        other => panic!("unexpected {other:?}"),
    }
}
