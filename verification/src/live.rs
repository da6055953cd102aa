//! Live index updates: which index changes a filesystem notification calls
//! for, and applying them once the caller has read the filesystem.
use vstd::prelude::*;

use crate::db::{pruned, subtree_pred, upserted, batch_view, index_valid, Index, IndexError};
use crate::model::{copy_bytes, IndexedEntry, RootStatus};
use crate::paths::{components, in_parent_dir, parent_components, path_starts_with, starts_with};
use crate::paths::{component_count, strip_base, strip_prefix};
use crate::scanner::{build_entry, entry_spec, EntryMeta};
use vstd::utf8::encode_utf8;

verus! {

/// How a rename notification relates its paths.
#[derive(Debug, Clone, Copy, PartialEq, Eq, Structural)]
pub enum RenameMode {
    Any,
    To,
    From,
    Both,
    Other,
}

/// The kind of a filesystem notification, as far as the index cares.
#[derive(Debug, Clone, Copy, PartialEq, Eq, Structural)]
pub enum ChangeKind {
    Create,
    Remove,
    Rename(RenameMode),
    Modify,
    Other,
}

/// A path named by a notification, with what the filesystem says of it now.
#[derive(Debug)]
pub struct PathFacts {
    pub path: Vec<u8>,
    pub exists: bool,
    pub is_dir: bool,
}

/// A filesystem notification.
#[derive(Debug)]
pub struct FsChange {
    pub kind: ChangeKind,
    pub paths: Vec<PathFacts>,
}

/// An index change that a notification calls for.
#[derive(Debug)]
pub enum LiveAction {
    /// Remove the entry at the relative path and everything below it.
    DeleteSubtree { root_id: i64, relative_path: Vec<u8> },
    /// Replace the subtree at `path` by what is on disk now.
    RescanSubtree { root_id: i64, root_path: Vec<u8>, path: Vec<u8>, relative_path: Vec<u8> },
    /// Re-read the single entry at `path`.
    RefreshEntry { root_id: i64, root_path: Vec<u8>, path: Vec<u8> },
}

/// The mathematical content of a `LiveAction`.
pub enum LiveActionView {
    DeleteSubtree { root_id: i64, relative_path: Seq<u8> },
    RescanSubtree { root_id: i64, root_path: Seq<u8>, path: Seq<u8>, relative_path: Seq<u8> },
    RefreshEntry { root_id: i64, root_path: Seq<u8>, path: Seq<u8> },
}

impl View for LiveAction {
    type V = LiveActionView;

    open spec fn view(&self) -> LiveActionView {
        match self {
            LiveAction::DeleteSubtree { root_id, relative_path } => LiveActionView::DeleteSubtree {
                root_id: *root_id,
                relative_path: relative_path@,
            },
            LiveAction::RescanSubtree { root_id, root_path, path, relative_path } =>
                LiveActionView::RescanSubtree {
                root_id: *root_id,
                root_path: root_path@,
                path: path@,
                relative_path: relative_path@,
            },
            LiveAction::RefreshEntry { root_id, root_path, path } => LiveActionView::RefreshEntry {
                root_id: *root_id,
                root_path: root_path@,
                path: path@,
            },
        }
    }
}

pub open spec fn actions_view(actions: Seq<LiveAction>) -> Seq<LiveActionView> {
    actions.map_values(|a: LiveAction| a@)
}

/// The bytes of a root's path.
pub open spec fn root_bytes(root: RootStatus) -> Seq<u8> {
    encode_utf8(root.path@)
}

/// `path` lies at or below root `i`.
pub open spec fn root_covers(roots: Seq<RootStatus>, path: Seq<u8>, i: int) -> bool {
    path_starts_with(path, root_bytes(roots[i]))
}

/// Root `i` is the root that covers `path` with the most components; among
/// equally deep roots, the last one listed.
pub open spec fn is_matching_root(roots: Seq<RootStatus>, path: Seq<u8>, i: int) -> bool {
    &&& 0 <= i < roots.len()
    &&& root_covers(roots, path, i)
    &&& forall|j: int|
        0 <= j < roots.len() && root_covers(roots, path, j) ==> components(
            root_bytes(roots[j]),
        ).len() < components(root_bytes(roots[i])).len() || (components(root_bytes(roots[j])).len()
            == components(root_bytes(roots[i])).len() && j <= i)
}

pub open spec fn matching_root_spec(roots: Seq<RootStatus>, path: Seq<u8>) -> Option<int> {
    if exists|i: int| is_matching_root(roots, path, i) {
        Some(choose|i: int| is_matching_root(roots, path, i))
    } else {
        None
    }
}

/// The root whose directory holds `path` most closely.
pub fn matching_root(roots: &[RootStatus], path: &[u8]) -> (found: Option<usize>)
    ensures
        match matching_root_spec(roots@, path@) {
            Some(i) => found == Some(i as usize),
            None => found is None,
        },
{
    let mut best: Option<usize> = None;
    let mut best_count: usize = 0;
    let mut i: usize = 0;
    while i < roots.len()
        invariant
            i <= roots@.len(),
            match best {
                Some(b) => {
                    &&& b < i
                    &&& root_covers(roots@, path@, b as int)
                    &&& best_count == components(root_bytes(roots@[b as int])).len()
                    &&& forall|j: int|
                        0 <= j < i && root_covers(roots@, path@, j) ==> components(
                            root_bytes(roots@[j]),
                        ).len() < best_count || (components(root_bytes(roots@[j])).len()
                            == best_count && j <= b)
                },
                None => forall|j: int| 0 <= j < i ==> !root_covers(roots@, path@, j),
            },
        decreases roots.len() - i,
    {
        let root = roots[i].path.as_str().as_bytes();
        if starts_with(path, root) {
            let count = component_count(root);
            match best {
                Some(_) => {
                    if count >= best_count {
                        best = Some(i);
                        best_count = count;
                    }
                },
                None => {
                    best = Some(i);
                    best_count = count;
                },
            }
        }
        i = i + 1;
    }
    proof {
        match best {
            Some(b) => {
                assert(is_matching_root(roots@, path@, b as int));
                let c = choose|c: int| is_matching_root(roots@, path@, c);
                assert(c == b) by {
                    if c < b as int {
                        assert(components(root_bytes(roots@[b as int])).len() <= components(root_bytes(roots@[c])).len());
                    } else if c > b as int {
                        assert(components(root_bytes(roots@[c])).len() <= components(root_bytes(roots@[b as int])).len());
                    }
                }
            },
            None => {},
        }
    }
    best
}

/// `path` lies in the directory that holds the index's database; changes
/// there are the index's own writes.
pub open spec fn is_database_path_spec(path: Seq<u8>, database: Seq<u8>) -> bool {
    match parent_components(database) {
        Some(dir) => dir.len() <= components(path).len() && components(path).take(dir.len() as int) == dir,
        None => false,
    }
}

pub fn is_database_path(path: &[u8], database: &[u8]) -> (r: bool)
    ensures
        r == is_database_path_spec(path@, database@),
{
    in_parent_dir(path, database)
}

/// The path at `position` is the old name of a rename.
pub open spec fn is_old_rename_path(kind: ChangeKind, paths: nat, position: int) -> bool {
    match kind {
        ChangeKind::Rename(RenameMode::From) => true,
        ChangeKind::Rename(RenameMode::Both) => position == 0,
        ChangeKind::Rename(RenameMode::Any) => paths > 1 && position == 0,
        _ => false,
    }
}

/// Creations and renames to a new name bring whole subtrees.
pub open spec fn is_recursive(kind: ChangeKind) -> bool {
    match kind {
        ChangeKind::Create => true,
        ChangeKind::Rename(RenameMode::To) => true,
        ChangeKind::Rename(RenameMode::Both) => true,
        _ => false,
    }
}

/// The action for the path at `position`: none for paths in the database's
/// directory, outside every root, or equal to their root; removal for
/// removed paths, old names of renames and paths that no longer exist;
/// a subtree rescan for directories that were created or renamed into
/// place; otherwise a refresh of the single entry.
pub open spec fn action_at(
    roots: Seq<RootStatus>,
    kind: ChangeKind,
    paths: Seq<PathFacts>,
    database: Seq<u8>,
    position: int,
) -> Option<LiveActionView> {
    let facts = paths[position];
    let path = facts.path@;
    if is_database_path_spec(path, database) {
        None
    } else {
        match matching_root_spec(roots, path) {
            None => None,
            Some(r) => {
                let root_id = roots[r].id;
                let root_path = root_bytes(roots[r]);
                match strip_base(path, root_path) {
                    None => None,
                    Some(relative) => if relative.len() == 0 {
                        None
                    } else if kind == ChangeKind::Remove || is_old_rename_path(
                        kind,
                        paths.len(),
                        position,
                    ) || !facts.exists {
                        Some(LiveActionView::DeleteSubtree { root_id, relative_path: relative })
                    } else if is_recursive(kind) && facts.is_dir {
                        Some(
                            LiveActionView::RescanSubtree {
                                root_id,
                                root_path,
                                path,
                                relative_path: relative,
                            },
                        )
                    } else {
                        Some(LiveActionView::RefreshEntry { root_id, root_path, path })
                    },
                }
            },
        }
    }
}

/// The actions for the first `n` paths, in order.
pub open spec fn plan_upto(
    roots: Seq<RootStatus>,
    kind: ChangeKind,
    paths: Seq<PathFacts>,
    database: Seq<u8>,
    n: int,
) -> Seq<LiveActionView>
    decreases n,
{
    if n <= 0 {
        Seq::empty()
    } else {
        let before = plan_upto(roots, kind, paths, database, n - 1);
        match action_at(roots, kind, paths, database, n - 1) {
            Some(a) => before.push(a),
            None => before,
        }
    }
}

/// The index changes a notification calls for, one per path at most.
pub fn plan_change(roots: &[RootStatus], change: &FsChange, database: &[u8]) -> (actions: Vec<LiveAction>)
    ensures
        actions_view(actions@) == plan_upto(roots@, change.kind, change.paths@, database@, change.paths@.len() as int),
{
    let mut actions: Vec<LiveAction> = Vec::new();
    let n = change.paths.len();
    let mut position: usize = 0;
    while position < n
        invariant
            n == change.paths@.len(),
            position <= n,
            actions_view(actions@) == plan_upto(roots@, change.kind, change.paths@, database@, position as int),
        decreases n - position,
    {
        let ghost before = actions_view(actions@);
        let facts = &change.paths[position];
        let path = facts.path.as_slice();
        let ghost expected = action_at(roots@, change.kind, change.paths@, database@, position as int);
        if !is_database_path(path, database) {
            match matching_root(roots, path) {
                None => {},
                Some(r) => {
                    let root_id = roots[r].id;
                    let root_path = roots[r].path.as_str().as_bytes();
                    match strip_prefix(path, root_path) {
                        None => {},
                        Some(relative) => {
                            if relative.len() > 0 {
                                let old_name = match change.kind {
                                    ChangeKind::Rename(RenameMode::From) => true,
                                    ChangeKind::Rename(RenameMode::Both) => position == 0,
                                    ChangeKind::Rename(RenameMode::Any) => n > 1 && position == 0,
                                    _ => false,
                                };
                                let recursive = match change.kind {
                                    ChangeKind::Create => true,
                                    ChangeKind::Rename(RenameMode::To) => true,
                                    ChangeKind::Rename(RenameMode::Both) => true,
                                    _ => false,
                                };
                                let removed = match change.kind {
                                    ChangeKind::Remove => true,
                                    _ => false,
                                };
                                if removed || old_name || !facts.exists {
                                    actions.push(LiveAction::DeleteSubtree { root_id, relative_path: relative });
                                } else if recursive && facts.is_dir {
                                    actions.push(LiveAction::RescanSubtree {
                                        root_id,
                                        root_path: copy_bytes(root_path),
                                        path: copy_bytes(path),
                                        relative_path: relative,
                                    });
                                } else {
                                    actions.push(LiveAction::RefreshEntry {
                                        root_id,
                                        root_path: copy_bytes(root_path),
                                        path: copy_bytes(path),
                                    });
                                }
                            }
                        },
                    }
                },
            }
        }
        proof {
            match expected {
                Some(a) => {
                    assert(actions_view(actions@) =~= before.push(a));
                },
                None => {
                    assert(actions_view(actions@) =~= before);
                },
            }
        }
        position = position + 1;
    }
    actions
}

/// A directory that a notification creates, or renames into place, below a
/// root (and outside the database's directory) is rescanned as a whole
/// subtree: its action is a rescan of that path under the root that holds
/// it, so that what was copied or moved in with it reaches the index.
pub proof fn lemma_new_directories_are_rescanned(
    roots: Seq<RootStatus>,
    kind: ChangeKind,
    paths: Seq<PathFacts>,
    database: Seq<u8>,
    p: int,
    r: int,
    relative: Seq<u8>,
)
    requires
        0 <= p < paths.len(),
        kind == ChangeKind::Create || kind == ChangeKind::Rename(RenameMode::To) || (kind
            == ChangeKind::Rename(RenameMode::Both) && p != 0),
        paths[p].exists,
        paths[p].is_dir,
        !is_database_path_spec(paths[p].path@, database),
        matching_root_spec(roots, paths[p].path@) == Some(r),
        strip_base(paths[p].path@, root_bytes(roots[r])) == Some(relative),
        relative.len() > 0,
    ensures
        plan_upto(roots, kind, paths, database, p + 1) == plan_upto(roots, kind, paths, database, p).push(
            LiveActionView::RescanSubtree {
                root_id: roots[r].id,
                root_path: root_bytes(roots[r]),
                path: paths[p].path@,
                relative_path: relative,
            },
        ),
{
}

/// A path that still exists and is only modified, or a file (not a
/// directory) that is created or renamed into place, is refreshed on its
/// own: its action re-reads that single entry under the root that holds it.
pub proof fn lemma_single_entries_are_refreshed(
    roots: Seq<RootStatus>,
    kind: ChangeKind,
    paths: Seq<PathFacts>,
    database: Seq<u8>,
    p: int,
    r: int,
    relative: Seq<u8>,
)
    requires
        0 <= p < paths.len(),
        kind == ChangeKind::Modify || ((kind == ChangeKind::Create || kind == ChangeKind::Rename(
            RenameMode::To,
        )) && !paths[p].is_dir),
        paths[p].exists,
        !is_database_path_spec(paths[p].path@, database),
        matching_root_spec(roots, paths[p].path@) == Some(r),
        strip_base(paths[p].path@, root_bytes(roots[r])) == Some(relative),
        relative.len() > 0,
    ensures
        plan_upto(roots, kind, paths, database, p + 1) == plan_upto(roots, kind, paths, database, p).push(
            LiveActionView::RefreshEntry { root_id: roots[r].id, root_path: root_bytes(roots[r]), path: paths[p].path@ },
        ),
{
}

/// A removed path, or one that no longer exists, is deleted from the index
/// together with everything below it.
pub proof fn lemma_removed_paths_are_deleted(
    roots: Seq<RootStatus>,
    kind: ChangeKind,
    paths: Seq<PathFacts>,
    database: Seq<u8>,
    p: int,
    r: int,
    relative: Seq<u8>,
)
    requires
        0 <= p < paths.len(),
        kind == ChangeKind::Remove || !paths[p].exists,
        !is_database_path_spec(paths[p].path@, database),
        matching_root_spec(roots, paths[p].path@) == Some(r),
        strip_base(paths[p].path@, root_bytes(roots[r])) == Some(relative),
        relative.len() > 0,
    ensures
        plan_upto(roots, kind, paths, database, p + 1) == plan_upto(roots, kind, paths, database, p).push(
            LiveActionView::DeleteSubtree { root_id: roots[r].id, relative_path: relative },
        ),
{
}

/// The entries to store for a rescanned subtree: each walked path with
/// readable metadata on the root's device that yields an entry.
pub open spec fn subtree_entries(
    root: Seq<u8>,
    root_device: u64,
    items: Seq<(Vec<u8>, Option<EntryMeta>)>,
) -> Seq<crate::model::EntryData>
    decreases items.len(),
{
    if items.len() == 0 {
        Seq::empty()
    } else {
        let before = subtree_entries(root, root_device, items.drop_last());
        match items.last().1 {
            Some(meta) => if meta.device_id == root_device {
                match entry_spec(root, items.last().0@, meta) {
                    Some(d) => before.push(d),
                    None => before,
                }
            } else {
                before
            },
            None => before,
        }
    }
}

/// Builds the entries of a rescanned subtree from the walked paths.
pub fn collect_subtree(root: &[u8], root_device: u64, items: &[(Vec<u8>, Option<EntryMeta>)]) -> (entries: Vec<IndexedEntry>)
    ensures
        batch_view(entries@) == subtree_entries(root@, root_device, items@),
{
    let mut entries: Vec<IndexedEntry> = Vec::new();
    let mut i: usize = 0;
    while i < items.len()
        invariant
            i <= items@.len(),
            batch_view(entries@) == subtree_entries(root@, root_device, items@.take(i as int)),
        decreases items.len() - i,
    {
        let ghost before = batch_view(entries@);
        assert(items@.take(i + 1).drop_last() =~= items@.take(i as int));
        assert(items@.take(i + 1).last() == items@[i as int]);
        let (path, metadata) = &items[i];
        match metadata {
            Some(meta) => {
                if meta.device_id == root_device {
                    match build_entry(root, path.as_slice(), meta) {
                        Some(entry) => {
                            entries.push(entry);
                            assert(batch_view(entries@) =~= before.push(entries@.last()@));
                        },
                        None => {},
                    }
                }
            },
            None => {},
        }
        i = i + 1;
    }
    assert(items@.take(items@.len() as int) =~= items@);
    entries
}

/// Applies one planned action once the caller has read what it needs from
/// the filesystem: the entries of a rescanned subtree, or the refreshed
/// entry if it still exists. Returns how many entries changed: removed
/// entries count for a deletion; removed entries plus stored ones for a
/// rescan (saturating); one for a refreshed entry that exists.
pub fn apply_action(index: &mut Index, action: &LiveAction, gathered: Vec<IndexedEntry>, generation: i64) -> (result: Result<u64, IndexError>)
    ensures
        action@ matches LiveActionView::DeleteSubtree { root_id, relative_path } ==> result matches Ok(n)
            && pruned(old(index)@, final(index)@, subtree_pred(root_id, relative_path), n)
            && final(index)@.roots == old(index)@.roots,
        action@ matches LiveActionView::RescanSubtree { root_id, relative_path, .. } ==> exists|mid: crate::db::IndexView, removed: u64|
            #![trigger pruned(old(index)@, mid, subtree_pred(root_id, relative_path), removed)]
            pruned(old(index)@, mid, subtree_pred(root_id, relative_path), removed)
            && mid.roots == old(index)@.roots
            && upserted(mid, final(index)@, root_id, generation, batch_view(gathered@), match result {
                Ok(_) => Ok(()),
                Err(e) => Err(e),
            })
            && (result matches Ok(n) ==> n == (if removed + gathered@.len() > u64::MAX {
                u64::MAX as int
            } else {
                removed + gathered@.len()
            })),
        action@ matches LiveActionView::RefreshEntry { root_id, .. } ==> if gathered@.len() == 0 {
            result == Ok::<u64, IndexError>(0) && final(index)@ == old(index)@
        } else {
            upserted(old(index)@, final(index)@, root_id, generation, batch_view(gathered@), match result {
                Ok(_) => Ok(()),
                Err(e) => Err(e),
            }) && (result is Ok ==> result == Ok::<u64, IndexError>(gathered@.len() as u64))
        },
{
    match action {
        LiveAction::DeleteSubtree { root_id, relative_path } => {
            let removed = index.delete_subtree(*root_id, relative_path.as_slice());
            Ok(removed)
        },
        LiveAction::RescanSubtree { root_id, relative_path, .. } => {
            let removed = index.delete_subtree(*root_id, relative_path.as_slice());
            let ghost mid = index@;
            let stored = gathered.len() as u64;
            let result = match index.upsert_batch(*root_id, generation, gathered.as_slice()) {
                Ok(()) => Ok(removed.saturating_add(stored)),
                Err(e) => Err(e),
            };
            let ghost rid = action@->RescanSubtree_root_id;
            let ghost rp = action@->RescanSubtree_relative_path;
            assert(rid == *root_id);
            assert(rp == relative_path@);
            assert(exists|m: crate::db::IndexView, r: u64|
                #![trigger pruned(old(index)@, m, subtree_pred(*root_id, relative_path@), r)]
                pruned(old(index)@, m, subtree_pred(*root_id, relative_path@), r)
                && m.roots == old(index)@.roots
                && upserted(m, index@, *root_id, generation, batch_view(gathered@), match result {
                    Ok(_) => Ok(()),
                    Err(e) => Err(e),
                })
                && (result matches Ok(n) ==> n == (if r + gathered@.len() > u64::MAX {
                    u64::MAX as int
                } else {
                    r + gathered@.len()
                })));
            result
        },
        LiveAction::RefreshEntry { root_id, .. } => {
            if gathered.len() == 0 {
                return Ok(0);
            }
            let stored = gathered.len() as u64;
            match index.upsert_batch(*root_id, generation, gathered.as_slice()) {
                Ok(()) => Ok(stored),
                Err(e) => Err(e),
            }
        },
    }
}

} // verus!
