use fastfind::buckets::{hash_path, HASH_MODULUS};
use fastfind::model::{bytes_equal, copy_bytes, EntryKind};
use fastfind::paths::{component_count, components_of, file_name, same_path, starts_with, strip_prefix};
use fastfind::text::join_path_string;

#[test]
fn components_follow_standard_path_rules() {
    let parts = components_of(b"/a//b/./c/");
    assert_eq!(parts, vec![b"/".to_vec(), b"a".to_vec(), b"b".to_vec(), b"c".to_vec()]);
    assert_eq!(components_of(b"./x/.."), vec![b".".to_vec(), b"x".to_vec(), b"..".to_vec()]);
    assert_eq!(component_count(b"/home/user"), 3);
    assert_eq!(component_count(b""), 0);
}

#[test]
fn prefixes_compare_whole_components() {
    assert!(starts_with(b"/home/user/x", b"/home/user"));
    assert!(starts_with(b"/home/user", b"/home/user/"));
    assert!(!starts_with(b"/home/username", b"/home/user"));
    assert!(same_path(b"/a/b/", b"/a//b"));
    assert!(!same_path(b"/a/b", b"a/b"));
}

#[test]
fn stripping_and_naming() {
    assert_eq!(strip_prefix(b"/r/a/b.txt", b"/r"), Some(b"a/b.txt".to_vec()));
    assert_eq!(strip_prefix(b"/r", b"/r"), Some(Vec::new()));
    assert_eq!(strip_prefix(b"/rx/a", b"/r"), None);
    assert_eq!(file_name(b"/r/a/b.txt"), Some(b"b.txt".to_vec()));
    assert_eq!(file_name(b"/r/a/"), Some(b"a".to_vec()));
    assert_eq!(file_name(b"/"), None);
    assert_eq!(file_name(b"/r/.."), None);
}

#[test]
fn joining_paths_follows_path_join() {
    assert_eq!(join_path_string("/data/files", "a/b"), "/data/files/a/b");
    assert_eq!(join_path_string("/data/files/", "a"), "/data/files/a");
    assert_eq!(join_path_string("/data", "/abs"), "/abs");
    assert_eq!(join_path_string("", "a"), "a");
}

#[test]
fn byte_helpers_and_kind_codes() {
    assert!(bytes_equal(b"abc", b"abc"));
    assert!(!bytes_equal(b"abc", b"abd"));
    assert!(!bytes_equal(b"ab", b"abc"));
    assert_eq!(copy_bytes(b"xyz"), b"xyz".to_vec());
    for kind in [EntryKind::File, EntryKind::Directory, EntryKind::Symlink, EntryKind::Other] {
        assert_eq!(EntryKind::from_i64(kind.as_i64()), kind);
    }
    assert_eq!(EntryKind::File.as_i64(), 1);
    assert_eq!(EntryKind::Directory.as_i64(), 2);
    assert_eq!(EntryKind::Symlink.as_i64(), 3);
    assert_eq!(EntryKind::Other.as_i64(), 4);
    assert_eq!(EntryKind::from_i64(0), EntryKind::Other);
    assert_eq!(EntryKind::from_i64(99), EntryKind::Other);
}

#[test]
fn path_hash_folds_bytes_polynomially() {
    assert_eq!(hash_path(b""), 0);
    assert_eq!(hash_path(b"a"), 97);
    assert_eq!(hash_path(b"ab"), 97 * 31 + 98);
    let long = vec![0xffu8; 64];
    assert!(hash_path(&long) < HASH_MODULUS);
}

#[test]
fn white_space_agrees_with_the_standard_library() {
    for code in 0..=0x10ffffu32 {
        if let Some(c) = char::from_u32(code) {
            assert_eq!(fastfind::text::is_whitespace(c), c.is_whitespace(), "{code:#x}");
        }
    }
    for text in ["", "  ", " a b ", "\u{3000}x\u{85}", "\tpath with  spaces\r\n", "no-trim"] {
        assert_eq!(fastfind::text::trim_text(text), text.trim());
    }
}
