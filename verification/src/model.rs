//! The records the index stores and hands out.
use vstd::prelude::*;

verus! {

/// What a directory entry is, as far as the index cares.
#[derive(Debug, Clone, Copy, PartialEq, Eq, Structural)]
pub enum EntryKind {
    File,
    Directory,
    Symlink,
    Other,
}

/// The integer under which a kind is stored.
pub open spec fn kind_code(kind: EntryKind) -> i64 {
    match kind {
        EntryKind::File => 1,
        EntryKind::Directory => 2,
        EntryKind::Symlink => 3,
        EntryKind::Other => 4,
    }
}

/// The kind a stored integer stands for; unknown codes read as `Other`.
pub open spec fn kind_from_code(value: i64) -> EntryKind {
    if value == 1 {
        EntryKind::File
    } else if value == 2 {
        EntryKind::Directory
    } else if value == 3 {
        EntryKind::Symlink
    } else {
        EntryKind::Other
    }
}

impl EntryKind {
    pub fn as_i64(self) -> (code: i64)
        ensures
            code == kind_code(self),
    {
        match self {
            EntryKind::File => 1,
            EntryKind::Directory => 2,
            EntryKind::Symlink => 3,
            EntryKind::Other => 4,
        }
    }

    pub fn from_i64(value: i64) -> (kind: Self)
        ensures
            kind == kind_from_code(value),
    {
        match value {
            1 => EntryKind::File,
            2 => EntryKind::Directory,
            3 => EntryKind::Symlink,
            _ => EntryKind::Other,
        }
    }
}

/// Reading back the code under which a kind was stored gives that kind.
pub proof fn lemma_kind_code_roundtrip(kind: EntryKind)
    ensures
        kind_from_code(kind_code(kind)) == kind,
        1 <= kind_code(kind) <= 4,
{
}

/// The mathematical content of an `IndexedEntry`.
pub struct EntryData {
    pub relative_path: Seq<u8>,
    pub display_path: Seq<char>,
    pub name: Seq<u8>,
    pub display_name: Seq<char>,
    pub normalized_name: Seq<char>,
    pub kind: EntryKind,
    pub device_id: u64,
    pub inode: u64,
    pub size: u64,
    pub mtime_ns: i64,
}

/// One filesystem entry below a root: its raw path and name bytes relative to
/// the root, their displayable forms, the lower-cased name that searches
/// match against, and a few metadata fields.
#[derive(Debug)]
pub struct IndexedEntry {
    pub relative_path: Vec<u8>,
    pub display_path: String,
    pub name: Vec<u8>,
    pub display_name: String,
    pub normalized_name: String,
    pub kind: EntryKind,
    pub device_id: u64,
    pub inode: u64,
    pub size: u64,
    pub mtime_ns: i64,
}

impl View for IndexedEntry {
    type V = EntryData;

    open spec fn view(&self) -> EntryData {
        EntryData {
            relative_path: self.relative_path@,
            display_path: self.display_path@,
            name: self.name@,
            display_name: self.display_name@,
            normalized_name: self.normalized_name@,
            kind: self.kind,
            device_id: self.device_id,
            inode: self.inode,
            size: self.size,
            mtime_ns: self.mtime_ns,
        }
    }
}

/// A copy of a byte vector.
pub fn copy_bytes(bytes: &[u8]) -> (out: Vec<u8>)
    ensures
        out@ == bytes@,
{
    let mut out: Vec<u8> = Vec::new();
    let mut i: usize = 0;
    while i < bytes.len()
        invariant
            i <= bytes.len(),
            out@ == bytes@.take(i as int),
        decreases bytes.len() - i,
    {
        out.push(bytes[i]);
        assert(bytes@.take(i + 1) =~= bytes@.take(i as int).push(bytes@[i as int]));
        i = i + 1;
    }
    assert(bytes@.take(bytes.len() as int) =~= bytes@);
    out
}

/// Whether two byte sequences are equal.
pub fn bytes_equal(a: &[u8], b: &[u8]) -> (r: bool)
    ensures
        r == (a@ == b@),
{
    if a.len() != b.len() {
        return false;
    }
    let mut i: usize = 0;
    while i < a.len()
        invariant
            i <= a.len(),
            a.len() == b.len(),
            forall|k: int| 0 <= k < i ==> a@[k] == b@[k],
        decreases a.len() - i,
    {
        if a[i] != b[i] {
            return false;
        }
        i = i + 1;
    }
    assert(a@ =~= b@);
    true
}

impl IndexedEntry {
    /// A field-by-field copy.
    pub fn duplicate(&self) -> (out: Self)
        ensures
            out@ == self@,
    {
        IndexedEntry {
            relative_path: copy_bytes(self.relative_path.as_slice()),
            display_path: self.display_path.clone(),
            name: copy_bytes(self.name.as_slice()),
            display_name: self.display_name.clone(),
            normalized_name: self.normalized_name.clone(),
            kind: self.kind,
            device_id: self.device_id,
            inode: self.inode,
            size: self.size,
            mtime_ns: self.mtime_ns,
        }
    }
}

/// One search hit: the entry's id, its full path (root joined with the
/// relative path), its display name, kind, size and modification time.
#[derive(Debug)]
pub struct SearchResult {
    pub id: i64,
    pub path: String,
    pub name: String,
    pub kind: EntryKind,
    pub size: u64,
    pub modified_ns: i64,
}

/// The mathematical content of a `SearchResult`.
pub struct SearchResultView {
    pub id: i64,
    pub path: Seq<char>,
    pub name: Seq<char>,
    pub kind: EntryKind,
    pub size: u64,
    pub modified_ns: i64,
}

impl SearchResult {
    /// A field-by-field copy.
    pub fn duplicate(&self) -> (out: Self)
        ensures
            out@ == self@,
    {
        SearchResult {
            id: self.id,
            path: self.path.clone(),
            name: self.name.clone(),
            kind: self.kind,
            size: self.size,
            modified_ns: self.modified_ns,
        }
    }
}

impl View for SearchResult {
    type V = SearchResultView;

    open spec fn view(&self) -> SearchResultView {
        SearchResultView {
            id: self.id,
            path: self.path@,
            name: self.name@,
            kind: self.kind,
            size: self.size,
            modified_ns: self.modified_ns,
        }
    }
}

/// The health and freshness of one indexed root.
#[derive(Debug)]
pub struct RootStatus {
    pub id: i64,
    pub path: String,
    pub device_id: u64,
    pub entry_count: u64,
    pub state: String,
    pub last_scan_ms: Option<i64>,
    pub last_scan_duration_ms: Option<u64>,
    pub error_count: u64,
}

/// The mathematical content of a `RootStatus`.
pub struct RootStatusView {
    pub id: i64,
    pub path: Seq<char>,
    pub device_id: u64,
    pub entry_count: nat,
    pub state: Seq<char>,
    pub last_scan_ms: Option<i64>,
    pub last_scan_duration_ms: Option<u64>,
    pub error_count: u64,
}

impl View for RootStatus {
    type V = RootStatusView;

    open spec fn view(&self) -> RootStatusView {
        RootStatusView {
            id: self.id,
            path: self.path@,
            device_id: self.device_id,
            entry_count: self.entry_count as nat,
            state: self.state@,
            last_scan_ms: self.last_scan_ms,
            last_scan_duration_ms: self.last_scan_duration_ms,
            error_count: self.error_count,
        }
    }
}

} // verus!
