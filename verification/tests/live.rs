use fastfind::live::{
    apply_action, collect_subtree, is_database_path, matching_root, plan_change, ChangeKind,
    FsChange, LiveAction, PathFacts, RenameMode,
};
use fastfind::model::{EntryKind, IndexedEntry};
use fastfind::scanner::EntryMeta;
use fastfind::{Index, RootStatus};

fn root(id: i64, path: &str) -> RootStatus {
    RootStatus {
        id,
        path: path.to_string(),
        device_id: 1,
        entry_count: 0,
        state: "live".to_string(),
        last_scan_ms: None,
        last_scan_duration_ms: None,
        error_count: 0,
    }
}

fn facts(path: &str, exists: bool, is_dir: bool) -> PathFacts {
    PathFacts { path: path.as_bytes().to_vec(), exists, is_dir }
}

fn meta(device_id: u64) -> EntryMeta {
    EntryMeta {
        is_file: true,
        is_dir: false,
        is_symlink: false,
        device_id,
        inode: 1,
        size: 1,
        mtime: 0,
        mtime_nsec: 0,
    }
}

fn entry(relative: &str) -> IndexedEntry {
    IndexedEntry {
        relative_path: relative.as_bytes().to_vec(),
        display_path: relative.to_string(),
        name: relative.rsplit('/').next().unwrap().as_bytes().to_vec(),
        display_name: relative.rsplit('/').next().unwrap().to_string(),
        normalized_name: relative.rsplit('/').next().unwrap().to_lowercase(),
        kind: EntryKind::File,
        device_id: 1,
        inode: 1,
        size: 1,
        mtime_ns: 0,
    }
}

#[test]
fn the_deepest_covering_root_matches() {
    let roots = vec![root(1, "/home"), root(2, "/home/user"), root(3, "/srv")];
    assert_eq!(matching_root(&roots, b"/home/user/doc.txt"), Some(1));
    assert_eq!(matching_root(&roots, b"/home/other"), Some(0));
    assert_eq!(matching_root(&roots, b"/homeless"), None);
    assert_eq!(matching_root(&roots, b"/srv"), Some(2));
    assert_eq!(matching_root(&[], b"/srv"), None);
}

#[test]
fn paths_in_the_database_directory_are_ignored() {
    assert!(is_database_path(b"/var/db/index.db-wal", b"/var/db/index.db"));
    assert!(is_database_path(b"/var/db/sub/x", b"/var/db/index.db"));
    assert!(!is_database_path(b"/var/dbx", b"/var/db/index.db"));
    assert!(!is_database_path(b"/anything", b"/"));
}

#[test]
fn removals_and_old_rename_names_delete_subtrees() {
    let roots = vec![root(1, "/home/user")];
    let removed = FsChange { kind: ChangeKind::Remove, paths: vec![facts("/home/user/a", false, false)] };
    let actions = plan_change(&roots, &removed, b"/var/db/index.db");
    assert_eq!(actions.len(), 1);
    match &actions[0] {
        LiveAction::DeleteSubtree { root_id, relative_path } => {
            assert_eq!(*root_id, 1);
            assert_eq!(relative_path, b"a");
        }
        other => panic!("unexpected {other:?}"),
    }

    let renamed = FsChange {
        kind: ChangeKind::Rename(RenameMode::Both),
        paths: vec![facts("/home/user/old", false, true), facts("/home/user/new", true, true)],
    };
    let actions = plan_change(&roots, &renamed, b"/var/db/index.db");
    assert_eq!(actions.len(), 2);
    assert!(matches!(&actions[0], LiveAction::DeleteSubtree { relative_path, .. } if relative_path == b"old"));
    match &actions[1] {
        LiveAction::RescanSubtree { root_id, root_path, path, relative_path } => {
            assert_eq!(*root_id, 1);
            assert_eq!(root_path, b"/home/user");
            assert_eq!(path, b"/home/user/new");
            assert_eq!(relative_path, b"new");
        }
        other => panic!("unexpected {other:?}"),
    }
}

#[test]
fn modified_files_are_refreshed_and_foreign_paths_skipped() {
    let roots = vec![root(1, "/home/user")];
    let change = FsChange {
        kind: ChangeKind::Modify,
        paths: vec![
            facts("/home/user/file.txt", true, false),
            facts("/elsewhere/file.txt", true, false),
            facts("/home/user", true, true),
            facts("/var/db/index.db", true, false),
        ],
    };
    let actions = plan_change(&roots, &change, b"/var/db/index.db");
    assert_eq!(actions.len(), 1);
    match &actions[0] {
        LiveAction::RefreshEntry { root_id, root_path, path } => {
            assert_eq!(*root_id, 1);
            assert_eq!(root_path, b"/home/user");
            assert_eq!(path, b"/home/user/file.txt");
        }
        other => panic!("unexpected {other:?}"),
    }
    let created_file = FsChange { kind: ChangeKind::Create, paths: vec![facts("/home/user/f", true, false)] };
    assert!(matches!(plan_change(&roots, &created_file, b"/db/x")[0], LiveAction::RefreshEntry { .. }));
    let vanished = FsChange { kind: ChangeKind::Modify, paths: vec![facts("/home/user/f", false, false)] };
    assert!(matches!(plan_change(&roots, &vanished, b"/db/x")[0], LiveAction::DeleteSubtree { .. }));
    let any_rename = FsChange {
        kind: ChangeKind::Rename(RenameMode::Any),
        paths: vec![facts("/home/user/a", true, false), facts("/home/user/b", true, false)],
    };
    let actions = plan_change(&roots, &any_rename, b"/db/x");
    assert!(matches!(actions[0], LiveAction::DeleteSubtree { .. }));
    assert!(matches!(actions[1], LiveAction::RefreshEntry { .. }));
}

#[test]
fn rescanned_subtrees_keep_entries_on_the_root_device() {
    let items = vec![
        (b"/r/d".to_vec(), Some(meta(1))),
        (b"/r/d/x".to_vec(), Some(meta(2))),
        (b"/r/d/y".to_vec(), None),
        (b"/r/d/z".to_vec(), Some(meta(1))),
    ];
    let entries = collect_subtree(b"/r", 1, &items);
    let paths: Vec<&[u8]> = entries.iter().map(|e| e.relative_path.as_slice()).collect();
    assert_eq!(paths, [b"d".as_slice(), b"d/z".as_slice()]);
}

#[test]
fn applying_actions_updates_the_index_and_counts_changes() {
    let mut index = Index::new("db".to_string());
    let id = index.register_root("/r", 1).unwrap();
    index.upsert_batch(id, 1, &[entry("d"), entry("d/a"), entry("d/b"), entry("e")]).unwrap();

    let delete = LiveAction::DeleteSubtree { root_id: id, relative_path: b"e".to_vec() };
    assert_eq!(apply_action(&mut index, &delete, Vec::new(), 2), Ok(1));
    assert!(index.search("e", 10).iter().all(|r| r.name != "e"));

    let rescan = LiveAction::RescanSubtree {
        root_id: id,
        root_path: b"/r".to_vec(),
        path: b"/r/d".to_vec(),
        relative_path: b"d".to_vec(),
    };
    assert_eq!(apply_action(&mut index, &rescan, vec![entry("d"), entry("d/c")], 3), Ok(5));
    let names: Vec<String> = index.search("", 10).into_iter().map(|r| r.name).collect();
    assert_eq!(names, ["c", "d"]);

    let refresh = LiveAction::RefreshEntry { root_id: id, root_path: b"/r".to_vec(), path: b"/r/n".to_vec() };
    assert_eq!(apply_action(&mut index, &refresh, Vec::new(), 4), Ok(0));
    assert_eq!(apply_action(&mut index, &refresh, vec![entry("n")], 4), Ok(1));
    assert_eq!(index.search("n", 10).len(), 1);
}
