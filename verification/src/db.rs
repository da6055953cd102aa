//! The persistent filename index: registered roots and the entries found
//! below them, with batched upserts, subtree removal, reconciliation after a
//! scan, substring search and per-root status.
use vstd::prelude::*;

use crate::model::{EntryData, EntryKind, IndexedEntry, RootStatus, SearchResult};
use crate::model::{RootStatusView, SearchResultView};
use crate::model::{bytes_equal, copy_bytes};
use crate::text::{chars_of, join_path, join_path_string, lex_le, lex_le_chars, lex_lt};
use crate::text::{name_le, name_le_chars, string_from_chars};
use crate::text::{contains_chars, glob_match_chars, glob_matches, is_substring, lowercase, to_lowercase};
use crate::text::{lemma_name_refl, lemma_name_total, lemma_name_trans};
use crate::text::{first_difference_smaller, lemma_lex_le_is_code_point_order, lemma_prefix_sorts_first};
use crate::query::{has_wildcard_chars, has_wildcards, SearchQuery, SearchQueryView};
use crate::query::{parse, parse_spec, QueryError, SearchOptions};
use crate::buckets::PathBuckets;
use std::collections::HashSet;

verus! {

/// How an index operation can fail.
#[derive(Debug, Clone, Copy, PartialEq, Eq, Structural)]
pub enum IndexError {
    /// The operation names a root that was never registered.
    UnknownRoot,
    /// No fresh identifiers are left for new rows.
    IdsExhausted,
    /// Rows handed to `Index::restore` do not form a consistent index.
    InconsistentRows,
}

/// The lifecycle state of a root.
#[derive(Debug, Clone, Copy, PartialEq, Eq, Structural)]
pub enum RootState {
    Initializing,
    Scanning,
    Live,
    Degraded,
}

/// The text under which a root state is stored and reported.
pub open spec fn state_text(state: RootState) -> Seq<char> {
    match state {
        RootState::Initializing => "initializing"@,
        RootState::Scanning => "scanning"@,
        RootState::Live => "live"@,
        RootState::Degraded => "degraded"@,
    }
}

impl RootState {
    /// The text under which this state is stored and reported.
    pub fn label(self) -> (text: &'static str)
        ensures
            text@ == state_text(self),
    {
        match self {
            RootState::Initializing => "initializing",
            RootState::Scanning => "scanning",
            RootState::Live => "live",
            RootState::Degraded => "degraded",
        }
    }
}

/// A registered root, as stored.
#[derive(Debug)]
pub struct RootRow {
    pub id: i64,
    pub path: String,
    pub device_id: u64,
    pub state: RootState,
    pub last_scan_ms: Option<i64>,
    pub last_scan_duration_ms: Option<u64>,
    pub error_count: u64,
}

/// The mathematical content of a registered root (its id is the map key).
pub struct RootView {
    pub path: Seq<char>,
    pub device_id: u64,
    pub state: RootState,
    pub last_scan_ms: Option<i64>,
    pub last_scan_duration_ms: Option<u64>,
    pub error_count: u64,
}

impl RootRow {
    pub open spec fn root_view(&self) -> RootView {
        RootView {
            path: self.path@,
            device_id: self.device_id,
            state: self.state,
            last_scan_ms: self.last_scan_ms,
            last_scan_duration_ms: self.last_scan_duration_ms,
            error_count: self.error_count,
        }
    }
}

/// An indexed entry, as stored: its id, root, content and the scan
/// generation that last wrote it.
#[derive(Debug)]
pub struct EntryRow {
    pub id: i64,
    pub root_id: i64,
    pub entry: IndexedEntry,
    pub generation: i64,
}

/// Entries are identified by their root and their raw relative path.
pub type EntryKey = (i64, Seq<u8>);

/// What the index keeps for one entry key.
pub struct StoredEntry {
    pub data: EntryData,
    pub generation: i64,
}

/// The mathematical model of an index: roots by id, entries by key, the id
/// of each entry row, and the next identifiers to hand out.
pub struct IndexView {
    pub roots: Map<i64, RootView>,
    pub entries: Map<EntryKey, StoredEntry>,
    pub entry_ids: Map<EntryKey, i64>,
    pub next_root_id: int,
    pub next_entry_id: int,
}

/// The root registered under `path`, if any.
pub open spec fn root_with_path(roots: Map<i64, RootView>, path: Seq<char>) -> Option<i64> {
    if exists|id: i64| roots.contains_key(id) && roots[id].path == path {
        Some(choose|id: i64| roots.contains_key(id) && roots[id].path == path)
    } else {
        None
    }
}

/// A root as it is first registered.
pub open spec fn initial_root(path: Seq<char>, device_id: u64) -> RootView {
    RootView {
        path,
        device_id,
        state: RootState::Initializing,
        last_scan_ms: None,
        last_scan_duration_ms: None,
        error_count: 0,
    }
}

/// The entries after upserting `batch` below `root_id` in order: each entry
/// replaces whatever was stored under its key, so a later entry with the same
/// relative path wins.
pub open spec fn apply_batch(
    entries: Map<EntryKey, StoredEntry>,
    root_id: i64,
    generation: i64,
    batch: Seq<EntryData>,
) -> Map<EntryKey, StoredEntry>
    decreases batch.len(),
{
    if batch.len() == 0 {
        entries
    } else {
        apply_batch(entries, root_id, generation, batch.drop_last()).insert(
            (root_id, batch.last().relative_path),
            StoredEntry { data: batch.last(), generation },
        )
    }
}

/// `path` is `prefix` itself or lies below it (the next byte is `/`).
pub open spec fn within_subtree(path: Seq<u8>, prefix: Seq<u8>) -> bool {
    path == prefix || (path.len() > prefix.len() && path.subrange(0, prefix.len() as int)
        == prefix && path[prefix.len() as int] == 0x2fu8)
}

/// The key belongs to the subtree at `prefix` of root `root_id`.
pub open spec fn in_subtree(key: EntryKey, root_id: i64, prefix: Seq<u8>) -> bool {
    key.0 == root_id && within_subtree(key.1, prefix)
}

/// The key belongs to `root_id` and was last written by another generation.
pub open spec fn is_stale(
    entries: Map<EntryKey, StoredEntry>,
    key: EntryKey,
    root_id: i64,
    generation: i64,
) -> bool {
    key.0 == root_id && entries[key].generation != generation
}


/// `c` is the smallest positive identifier that `used` does not hold.
pub open spec fn smallest_unused_at(used: Set<i64>, c: i64) -> bool {
    &&& 1 <= c
    &&& !used.contains(c)
    &&& forall|d: i64| 1 <= d < c ==> #[trigger] used.contains(d)
}

/// The smallest positive identifier that `used` does not hold.
pub open spec fn smallest_unused(used: Set<i64>) -> i64 {
    choose|c: i64| smallest_unused_at(used, c)
}

/// The identifier a new row gets, as SQLite hands out row ids: `next`, one
/// more than the largest in use (1 in an empty table); once the largest is
/// `i64::MAX`, an unused positive identifier (here the smallest), and none
/// when every positive identifier is in use.
pub open spec fn fresh_id(used: Set<i64>, next: int) -> Option<i64> {
    if next <= i64::MAX {
        Some(next as i64)
    } else if exists|c: i64| 1 <= c && !used.contains(c) {
        Some(smallest_unused(used))
    } else {
        None
    }
}

/// The outcome of registering `path` with `device_id`: a root already
/// registered under that path keeps its id and takes the new device id; an
/// unknown path gets a fresh root id, unless none is left.
pub open spec fn registered(
    old: IndexView,
    new: IndexView,
    path: Seq<char>,
    device_id: u64,
    result: Result<i64, IndexError>,
) -> bool {
    &&& new.entries == old.entries
    &&& new.entry_ids == old.entry_ids
    &&& new.next_entry_id == old.next_entry_id
    &&& match root_with_path(old.roots, path) {
        Some(id) => {
            &&& result == Ok::<i64, IndexError>(id)
            &&& new.roots == old.roots.insert(id, RootView { device_id, ..old.roots[id] })
            &&& new.next_root_id == old.next_root_id
        },
        None => if fresh_id(old.roots.dom(), old.next_root_id) is None {
            &&& result == Err::<i64, IndexError>(IndexError::IdsExhausted)
            &&& new.roots == old.roots
            &&& new.next_root_id == old.next_root_id
        } else {
            let id = fresh_id(old.roots.dom(), old.next_root_id)->0;
            &&& result == Ok::<i64, IndexError>(id)
            &&& new.roots == old.roots.insert(id, initial_root(path, device_id))
            &&& new.next_root_id == (if old.next_root_id <= i64::MAX { old.next_root_id + 1 } else { old.next_root_id })
        },
    }
}

/// The roots after a scan of `root_id` begins: it is marked as scanning and
/// its error count is cleared. Unknown roots are left alone.
pub open spec fn scan_begun(roots: Map<i64, RootView>, root_id: i64) -> Map<i64, RootView> {
    if roots.contains_key(root_id) {
        roots.insert(
            root_id,
            RootView { state: RootState::Scanning, error_count: 0, ..roots[root_id] },
        )
    } else {
        roots
    }
}


/// The contents of a batch of entries.
pub open spec fn batch_view(batch: Seq<IndexedEntry>) -> Seq<EntryData> {
    batch.map_values(|e: IndexedEntry| e@)
}

/// `next` is one more than the largest entry id, or 1 when there is no
/// entry: the id that the next new row gets, as SQLite hands out row ids.
pub open spec fn follows_ids(ids: Map<EntryKey, i64>, next: int) -> bool {
    &&& forall|k: EntryKey| #[trigger] ids.contains_key(k) ==> ids[k] < next
    &&& if exists|k: EntryKey| #[trigger] ids.contains_key(k) {
        exists|k: EntryKey| #[trigger] ids.contains_key(k) && ids[k] == next - 1
    } else {
        next == 1
    }
}

/// `next` is one more than the largest root id, or 1 when there is no root.
pub open spec fn follows_root_ids(ids: Set<i64>, next: int) -> bool {
    &&& forall|id: i64| #[trigger] ids.contains(id) ==> id < next
    &&& if exists|id: i64| #[trigger] ids.contains(id) {
        exists|id: i64| #[trigger] ids.contains(id) && id == next - 1
    } else {
        next == 1
    }
}

/// The ids that the entries hold.
pub open spec fn id_set(ids: Map<EntryKey, i64>) -> Set<i64> {
    ids.dom().map(|k: EntryKey| ids[k])
}

/// The entry ids, and the next id, after upserting `batch` below `root_id`
/// in order: a key already stored keeps its id; a new key gets a fresh id
/// (`fresh_id`).
pub open spec fn assign_ids(
    ids: Map<EntryKey, i64>,
    next: int,
    root_id: i64,
    batch: Seq<EntryData>,
) -> (Map<EntryKey, i64>, int)
    decreases batch.len(),
{
    if batch.len() == 0 {
        (ids, next)
    } else {
        let (m, n) = assign_ids(ids, next, root_id, batch.drop_last());
        let key = (root_id, batch.last().relative_path);
        if m.contains_key(key) {
            (m, n)
        } else {
            (m.insert(key, fresh_id(id_set(m), n)->0), if n <= i64::MAX { n + 1 } else { n })
        }
    }
}

/// The outcome of upserting `batch` below `root_id` with `generation`. An
/// empty batch succeeds and changes nothing, whatever the root. Below an
/// unknown root nothing changes and the upsert is refused; so it is when the
/// index would hold `i64::MAX` entries or more, where positive ids could run
/// out. Otherwise every entry is stored under its key; rows that existed
/// keep their ids and new rows get fresh ids in turn.
pub open spec fn upserted(
    old: IndexView,
    new: IndexView,
    root_id: i64,
    generation: i64,
    batch: Seq<EntryData>,
    result: Result<(), IndexError>,
) -> bool {
    if batch.len() == 0 {
        result == Ok::<(), IndexError>(()) && new == old
    } else if !old.roots.contains_key(root_id) {
        result == Err::<(), IndexError>(IndexError::UnknownRoot) && new == old
    } else if old.entries.dom().len() + batch.len() >= i64::MAX {
        result == Err::<(), IndexError>(IndexError::IdsExhausted) && new == old
    } else {
        &&& result == Ok::<(), IndexError>(())
        &&& new.roots == old.roots
        &&& new.next_root_id == old.next_root_id
        &&& new.entries == apply_batch(old.entries, root_id, generation, batch)
        &&& new.entry_ids == assign_ids(old.entry_ids, old.next_entry_id, root_id, batch).0
        &&& new.next_entry_id == assign_ids(old.entry_ids, old.next_entry_id, root_id, batch).1
    }
}


/// The keys present after a batch: the old ones and one per batch entry.
pub proof fn lemma_apply_batch_keys(
    entries: Map<EntryKey, StoredEntry>,
    root_id: i64,
    generation: i64,
    batch: Seq<EntryData>,
    key: EntryKey,
)
    ensures
        apply_batch(entries, root_id, generation, batch).contains_key(key) <==> (entries.contains_key(
            key,
        ) || exists|i: int| 0 <= i < batch.len() && key == (root_id, batch[i].relative_path)),
    decreases batch.len(),
{
    if batch.len() > 0 {
        lemma_apply_batch_keys(entries, root_id, generation, batch.drop_last(), key);
        if exists|i: int| 0 <= i < batch.len() && key == (root_id, batch[i].relative_path) {
            let i = choose|i: int| 0 <= i < batch.len() && key == (root_id, batch[i].relative_path);
            if i < batch.len() - 1 {
                assert(batch.drop_last()[i] == batch[i]);
            }
        }
        if exists|i: int| 0 <= i < batch.drop_last().len() && key == (root_id, batch.drop_last()[i].relative_path) {
            let i = choose|i: int| 0 <= i < batch.drop_last().len() && key == (root_id, batch.drop_last()[i].relative_path);
            assert(batch[i] == batch.drop_last()[i]);
        }
    }
}


/// The full path of a stored entry: its root's path joined with its
/// relative display path.
pub open spec fn full_path(v: IndexView, key: EntryKey) -> Seq<char> {
    join_path(v.roots[key.0].path, v.entries[key].data.display_path)
}

/// The search result reported for a stored entry.
pub open spec fn result_of(v: IndexView, key: EntryKey) -> SearchResultView {
    SearchResultView {
        id: v.entry_ids[key],
        path: full_path(v, key),
        name: v.entries[key].data.display_name,
        kind: v.entries[key].data.kind,
        size: v.entries[key].data.size,
        modified_ns: v.entries[key].data.mtime_ns,
    }
}

pub open spec fn display_name_of(v: IndexView, key: EntryKey) -> Seq<char> {
    v.entries[key].data.display_name
}

pub open spec fn min_nat(a: nat, b: nat) -> nat {
    if a <= b {
        a
    } else {
        b
    }
}

/// `keys` witnesses that `out` lists the first `limit` accepted entries in
/// name order: distinct accepted keys whose results `out` holds, as many as
/// `limit` allows, sorted by name, and with no accepted entry left out that
/// sorts before one that was listed.
pub open spec fn top_witness(
    v: IndexView,
    accept: spec_fn(EntryKey) -> bool,
    limit: nat,
    out: Seq<SearchResultView>,
    keys: Seq<EntryKey>,
) -> bool {
    &&& keys.len() == out.len()
    &&& keys.no_duplicates()
    &&& forall|i: int|
        0 <= i < keys.len() ==> v.entries.contains_key(#[trigger] keys[i]) && accept(keys[i])
            && out[i] == result_of(v, keys[i])
    &&& out.len() == min_nat(limit, v.entries.dom().filter(accept).len())
    &&& forall|i: int, j: int| 0 <= i < j < out.len() ==> name_le(out[i].name, out[j].name)
    &&& forall|k: EntryKey, i: int|
        v.entries.contains_key(k) && accept(k) && !keys.contains(k) && 0 <= i < out.len()
            ==> name_le(#[trigger] out[i].name, #[trigger] display_name_of(v, k))
}

/// `out` lists the first `limit` entries accepted by `accept`, shortest
/// names first and equal-length names in lexicographic order.
pub open spec fn is_top_results(
    v: IndexView,
    accept: spec_fn(EntryKey) -> bool,
    limit: nat,
    out: Seq<SearchResultView>,
) -> bool {
    exists|keys: Seq<EntryKey>| top_witness(v, accept, limit, out, keys)
}

pub open spec fn results_view(out: Seq<SearchResult>) -> Seq<SearchResultView> {
    out.map_values(|r: SearchResult| r@)
}

/// An entry whose lower-cased name contains `term`.
pub open spec fn name_contains(v: IndexView, term: Seq<char>, key: EntryKey) -> bool {
    is_substring(term, v.entries[key].data.normalized_name)
}

/// A term with a wildcard must match the whole target; any other term must
/// occur in it.
pub open spec fn term_matches(term: Seq<char>, target: Seq<char>) -> bool {
    if has_wildcard_chars(term) {
        glob_matches(term, target)
    } else {
        is_substring(term, target)
    }
}

/// Every name term matches the lower-cased name (or, with `match_path`, the
/// lower-cased full path), and every path term occurs in the lower-cased
/// full path.
pub open spec fn query_accepts(q: SearchQueryView, name: Seq<char>, lower_path: Seq<char>) -> bool {
    &&& forall|i: int|
        0 <= i < q.name_terms.len() ==> term_matches(
            #[trigger] q.name_terms[i],
            if q.match_path {
                lower_path
            } else {
                name
            },
        )
    &&& forall|i: int|
        0 <= i < q.path_terms.len() ==> is_substring(#[trigger] q.path_terms[i], lower_path)
}

/// A stored entry that a parsed query accepts.
pub open spec fn query_matches(v: IndexView, q: SearchQueryView, key: EntryKey) -> bool {
    query_accepts(q, v.entries[key].data.normalized_name, lowercase(full_path(v, key)))
}

pub open spec fn sorted_names(s: Seq<Seq<char>>) -> bool {
    forall|i: int, j: int| 0 <= i < j < s.len() ==> name_le(s[i], s[j])
}

proof fn lemma_sorted_insert(s: Seq<Seq<char>>, pos: int, x: Seq<char>)
    requires
        sorted_names(s),
        0 <= pos <= s.len(),
        forall|i: int| 0 <= i < pos ==> name_le(s[i], x),
        pos < s.len() ==> !name_le(s[pos], x),
    ensures
        sorted_names(s.insert(pos, x)),
        forall|i: int| 0 <= i < s.len() + 1 ==> name_le(s.insert(pos, x)[i], s.insert(pos, x)[s.len() as int]),
{
    let t = s.insert(pos, x);
    s.insert_ensures(pos, x);
    if pos < s.len() {
        lemma_name_total(s[pos], x);
    }
    assert forall|i: int, j: int| 0 <= i < j < t.len() implies name_le(t[i], t[j]) by {
        if i < pos && j < pos {
        } else if i < pos && j == pos {
        } else if i < pos {
            assert(t[j] == s[j - 1]);
        } else if i == pos {
            assert(t[j] == s[j - 1]);
            if j - 1 > pos {
                lemma_name_trans(x, s[pos], s[j - 1]);
            }
        } else {
            assert(t[i] == s[i - 1]);
            assert(t[j] == s[j - 1]);
        }
    }
    assert forall|i: int| 0 <= i < s.len() + 1 implies name_le(t[i], t[s.len() as int]) by {
        if i < s.len() {
        } else {
            lemma_name_refl(t[i]);
        }
    }
}


/// The number of entries stored below a root.
pub open spec fn entry_count(v: IndexView, root_id: i64) -> nat {
    v.entries.dom().filter(below_root(root_id)).len()
}

/// Keys of entries stored below `root_id`.
pub open spec fn below_root(root_id: i64) -> spec_fn(EntryKey) -> bool {
    |k: EntryKey| k.0 == root_id
}

/// The status reported for a registered root.
pub open spec fn status_of(v: IndexView, id: i64) -> RootStatusView {
    RootStatusView {
        id,
        path: v.roots[id].path,
        device_id: v.roots[id].device_id,
        entry_count: entry_count(v, id),
        state: state_text(v.roots[id].state),
        last_scan_ms: v.roots[id].last_scan_ms,
        last_scan_duration_ms: v.roots[id].last_scan_duration_ms,
        error_count: v.roots[id].error_count,
    }
}

pub open spec fn statuses_view(out: Seq<RootStatus>) -> Seq<RootStatusView> {
    out.map_values(|r: RootStatus| r@)
}

/// `out` holds the status of every registered root exactly once, ordered by
/// path.
pub open spec fn is_status_listing(v: IndexView, out: Seq<RootStatusView>) -> bool {
    exists|ids: Seq<i64>|
        {
            &&& ids.len() == out.len()
            &&& ids.no_duplicates()
            &&& ids.to_set() == v.roots.dom()
            &&& forall|i: int| 0 <= i < ids.len() ==> out[i] == status_of(v, #[trigger] ids[i])
            &&& forall|i: int, j: int| 0 <= i < j < out.len() ==> lex_lt(out[i].path, out[j].path)
        }
}

/// In a status listing a root's path comes before every longer path that
/// it is a prefix of (`/home` before `/home/user`).
pub proof fn lemma_statuses_list_prefixes_first(
    v: IndexView,
    out: Seq<RootStatusView>,
    i: int,
    j: int,
    rest: Seq<char>,
)
    requires
        is_status_listing(v, out),
        0 <= i < out.len(),
        0 <= j < out.len(),
        rest.len() > 0,
        out[j].path == out[i].path + rest,
    ensures
        i < j,
{
    lemma_prefix_sorts_first(out[i].path, rest);
    assert(out[j].path.len() != out[i].path.len());
    if j < i {
        assert(lex_lt(out[j].path, out[i].path));
    }
}

/// A status listing is in code-point order of the paths: of two listed
/// roots, the earlier path is a proper prefix of the later one, or holds
/// the smaller code point where they first differ.
pub proof fn lemma_statuses_in_code_point_order(v: IndexView, out: Seq<RootStatusView>, i: int, j: int)
    requires
        is_status_listing(v, out),
        0 <= i < j < out.len(),
    ensures
        out[i].path != out[j].path,
        (out[i].path.len() < out[j].path.len() && out[j].path.take(out[i].path.len() as int) == out[i].path)
            || exists|k: int| first_difference_smaller(out[i].path, out[j].path, k),
{
    assert(lex_lt(out[i].path, out[j].path));
    lemma_lex_le_is_code_point_order(out[i].path, out[j].path);
    if out[i].path.len() == out[j].path.len() && out[j].path.take(out[i].path.len() as int) == out[i].path {
        assert(out[j].path =~= out[i].path);
    }
}

pub open spec fn sorted_paths(s: Seq<Seq<char>>) -> bool {
    forall|i: int, j: int| 0 <= i < j < s.len() ==> lex_lt(s[i], s[j])
}

proof fn lemma_sorted_path_insert(s: Seq<Seq<char>>, pos: int, x: Seq<char>)
    requires
        sorted_paths(s),
        0 <= pos <= s.len(),
        forall|i: int| 0 <= i < pos ==> lex_lt(s[i], x),
        pos < s.len() ==> !lex_le(s[pos], x),
    ensures
        sorted_paths(s.insert(pos, x)),
{
    let t = s.insert(pos, x);
    s.insert_ensures(pos, x);
    if pos < s.len() {
        crate::text::lemma_lex_total(s[pos], x);
        crate::text::lemma_lex_refl(x);
    }
    assert forall|i: int, j: int| 0 <= i < j < t.len() implies lex_lt(t[i], t[j]) by {
        if i < pos && j <= pos {
        } else if i < pos {
            assert(t[j] == s[j - 1]);
        } else if i == pos {
            assert(t[j] == s[j - 1]);
            if j - 1 > pos {
                assert(lex_lt(s[pos], s[j - 1]));
                crate::text::lemma_lex_trans(x, s[pos], s[j - 1]);
            }
        } else {
            assert(t[i] == s[i - 1]);
            assert(t[j] == s[j - 1]);
        }
    }
}


/// Keys in the subtree at `prefix` of root `root_id`.
pub open spec fn subtree_pred(root_id: i64, prefix: Seq<u8>) -> spec_fn(EntryKey) -> bool {
    |k: EntryKey| in_subtree(k, root_id, prefix)
}

/// Keys of `root_id` last written by a generation other than `generation`.
pub open spec fn stale_pred(
    entries: Map<EntryKey, StoredEntry>,
    root_id: i64,
    generation: i64,
) -> spec_fn(EntryKey) -> bool {
    |k: EntryKey| is_stale(entries, k, root_id, generation)
}

/// The complement of a key predicate.
pub open spec fn keep_pred(removed: spec_fn(EntryKey) -> bool) -> spec_fn(EntryKey) -> bool {
    |k: EntryKey| !removed(k)
}

/// The roots after a scan of `root_id` finishes: the root becomes live after
/// an error-free scan and degraded otherwise, and records when the scan
/// completed, how long it took and how many errors it met. Unknown roots are
/// left alone.
pub open spec fn scan_finished(
    roots: Map<i64, RootView>,
    root_id: i64,
    completed_at_ms: i64,
    elapsed_ms: u64,
    errors: u64,
) -> Map<i64, RootView> {
    if roots.contains_key(root_id) {
        roots.insert(
            root_id,
            RootView {
                state: if errors == 0 {
                    RootState::Live
                } else {
                    RootState::Degraded
                },
                last_scan_ms: Some(completed_at_ms),
                last_scan_duration_ms: Some(elapsed_ms),
                error_count: errors,
                ..roots[root_id]
            },
        )
    } else {
        roots
    }
}

/// The model after removing the keys that `removed` selects; returns how
/// many there were. The next entry id is again one more than the largest id
/// left, so the id of a removed newest entry is handed out again.
pub open spec fn pruned(old: IndexView, new: IndexView, removed: spec_fn(EntryKey) -> bool, count: u64) -> bool {
    &&& new.entries == old.entries.filter_keys(keep_pred(removed))
    &&& new.entry_ids == old.entry_ids.filter_keys(keep_pred(removed))
    &&& count == old.entries.dom().filter(removed).len()
    &&& follows_ids(new.entry_ids, new.next_entry_id)
}


/// What ending a scan does to the model: the root records the outcome;
/// after an error-free scan the entries of the root that another generation
/// wrote are removed (`removed` counts them), otherwise nothing is removed.
pub open spec fn scan_closed(
    old: IndexView,
    new: IndexView,
    root_id: i64,
    generation: i64,
    completed_at_ms: i64,
    elapsed_ms: u64,
    errors: u64,
    removed: u64,
) -> bool {
    &&& new.roots == scan_finished(old.roots, root_id, completed_at_ms, elapsed_ms, errors)
    &&& new.next_root_id == old.next_root_id
    &&& errors == 0 ==> pruned(old, new, stale_pred(old.entries, root_id, generation), removed)
    &&& errors != 0 ==> removed == 0 && new.entries == old.entries && new.entry_ids
        == old.entry_ids && new.next_entry_id == old.next_entry_id
}


// ---------------------------------------------------------------------------
// Laws of the index.
// ---------------------------------------------------------------------------

/// The position of the last entry of `batch` stored under `path`, if any.
pub open spec fn last_with_path(batch: Seq<EntryData>, path: Seq<u8>) -> Option<int>
    decreases batch.len(),
{
    if batch.len() == 0 {
        None
    } else if batch.last().relative_path == path {
        Some(batch.len() - 1)
    } else {
        last_with_path(batch.drop_last(), path)
    }
}

/// Reading back a batch: after upserting `batch` below `root_id`, a key of
/// that root holds the last batch entry with its relative path, tagged with
/// the batch's generation; every other key keeps what it held.
pub proof fn lemma_batch_read_back(
    entries: Map<EntryKey, StoredEntry>,
    root_id: i64,
    generation: i64,
    batch: Seq<EntryData>,
    key: EntryKey,
)
    ensures
        key.0 == root_id && last_with_path(batch, key.1) is Some ==> {
            let i = last_with_path(batch, key.1)->0;
            &&& 0 <= i < batch.len()
            &&& batch[i].relative_path == key.1
            &&& apply_batch(entries, root_id, generation, batch).contains_key(key)
            &&& apply_batch(entries, root_id, generation, batch)[key] == (StoredEntry {
                data: batch[i],
                generation,
            })
        },
        !(key.0 == root_id && last_with_path(batch, key.1) is Some) ==> {
            &&& apply_batch(entries, root_id, generation, batch).contains_key(key)
                == entries.contains_key(key)
            &&& entries.contains_key(key) ==> apply_batch(entries, root_id, generation, batch)[key]
                == entries[key]
        },
    decreases batch.len(),
{
    if batch.len() > 0 {
        lemma_batch_read_back(entries, root_id, generation, batch.drop_last(), key);
    }
}

/// Writing a batch in two parts is the same as writing it at once.
pub proof fn lemma_batches_compose(
    entries: Map<EntryKey, StoredEntry>,
    root_id: i64,
    generation: i64,
    first: Seq<EntryData>,
    second: Seq<EntryData>,
)
    ensures
        apply_batch(apply_batch(entries, root_id, generation, first), root_id, generation, second)
            == apply_batch(entries, root_id, generation, first + second),
    decreases second.len(),
{
    if second.len() == 0 {
        assert(first + second =~= first);
    } else {
        lemma_batches_compose(entries, root_id, generation, first, second.drop_last());
        assert((first + second).drop_last() =~= first + second.drop_last());
        assert((first + second).last() == second.last());
    }
}

/// With a limit at least as large as the number of accepted entries, a
/// search lists every accepted entry and nothing else.
pub proof fn lemma_search_complete(
    v: IndexView,
    accept: spec_fn(EntryKey) -> bool,
    limit: nat,
    out: Seq<SearchResultView>,
    key: EntryKey,
)
    requires
        is_top_results(v, accept, limit, out),
        v.entries.dom().finite(),
        limit >= v.entries.dom().filter(accept).len(),
        v.entries.contains_key(key),
        accept(key),
    ensures
        exists|i: int| 0 <= i < out.len() && out[i] == result_of(v, key),
{
    let keys = choose|keys: Seq<EntryKey>| top_witness(v, accept, limit, out, keys);
    let found = v.entries.dom().filter(accept);
    assert forall|i: int| 0 <= i < keys.len() implies found.contains(#[trigger] keys[i]) by {}
    if !keys.contains(key) {
        keys.unique_seq_to_set();
        assert(keys.to_set().subset_of(found));
        assert(keys.to_set().insert(key).subset_of(found));
        vstd::set_lib::lemma_len_subset(keys.to_set().insert(key), found);
        assert(false);
    }
    let i = choose|i: int| 0 <= i < keys.len() && keys[i] == key;
    assert(out[i] == result_of(v, keys[i]));
}

/// What every index model satisfies: root paths are distinct, every entry
/// belongs to a registered root, entry ids are distinct, identifiers lie
/// below the next ones to hand out, and the next entry id is one more than
/// the largest.
pub open spec fn index_valid(v: IndexView) -> bool {
    &&& v.roots.dom().finite()
    &&& v.entries.dom().finite()
    &&& v.entry_ids.dom() == v.entries.dom()
    &&& forall|a: i64, b: i64|
        #[trigger] v.roots.contains_key(a) && #[trigger] v.roots.contains_key(b) && a != b
            ==> v.roots[a].path != v.roots[b].path
    &&& follows_root_ids(v.roots.dom(), v.next_root_id)
    &&& forall|k: EntryKey| #[trigger] v.entries.contains_key(k) ==> v.roots.contains_key(k.0)
    &&& forall|a: EntryKey, b: EntryKey|
        #[trigger] v.entries.contains_key(a) && #[trigger] v.entries.contains_key(b) && a != b
            ==> v.entry_ids[a] != v.entry_ids[b]
    &&& forall|k: EntryKey|
        #[trigger] v.entries.contains_key(k) ==> v.entry_ids[k] < v.next_entry_id
    &&& follows_ids(v.entry_ids, v.next_entry_id)
}

/// Registering a path that is already registered returns the same root id.
pub proof fn lemma_register_idempotent(
    v1: IndexView,
    v2: IndexView,
    v3: IndexView,
    path: Seq<char>,
    first_device: u64,
    second_device: u64,
    first: Result<i64, IndexError>,
    second: Result<i64, IndexError>,
)
    requires
        index_valid(v2),
        registered(v1, v2, path, first_device, first),
        first is Ok,
        registered(v2, v3, path, second_device, second),
    ensures
        second == first,
{
    let id = first->Ok_0;
    assert(v2.roots.contains_key(id) && v2.roots[id].path == path);
    let other = choose|x: i64| v2.roots.contains_key(x) && v2.roots[x].path == path;
    assert(other == id);
}

// ---------------------------------------------------------------------------
// Rows: the form in which an index is written out and read back.
// ---------------------------------------------------------------------------

/// The key an entry row is stored under.
pub open spec fn entry_row_key(r: EntryRow) -> EntryKey {
    (r.root_id, r.entry.relative_path@)
}

/// What an entry row stores under its key.
pub open spec fn entry_row_stored(r: EntryRow) -> StoredEntry {
    StoredEntry { data: r.entry@, generation: r.generation }
}

/// Some root row carries the id `id`.
pub open spec fn root_listed(roots: Seq<RootRow>, id: i64) -> bool {
    exists|j: int| 0 <= j < roots.len() && #[trigger] roots[j].id == id
}

/// Rows that can be read back as an index: no two roots share an id or a
/// path, no two entries share an id or a key, and every entry belongs to a
/// listed root.
pub open spec fn rows_consistent(roots: Seq<RootRow>, entries: Seq<EntryRow>) -> bool {
    &&& forall|i: int, j: int|
        0 <= i < j < roots.len() ==> roots[i].id != roots[j].id && roots[i].path@ != roots[j].path@
    &&& forall|i: int, j: int|
        0 <= i < j < entries.len() ==> entries[i].id != entries[j].id && entry_row_key(entries[i])
            != entry_row_key(entries[j])
    &&& forall|i: int| 0 <= i < entries.len() ==> root_listed(roots, #[trigger] entries[i].root_id)
}

/// `v` holds exactly the roots, the entries and the entry ids that the rows
/// list.
pub open spec fn rows_describe(v: IndexView, roots: Seq<RootRow>, entries: Seq<EntryRow>) -> bool {
    &&& v.roots.dom() == roots.map_values(|r: RootRow| r.id).to_set()
    &&& forall|i: int| 0 <= i < roots.len() ==> v.roots[#[trigger] roots[i].id] == roots[i].root_view()
    &&& v.entries.dom() == entries.map_values(|r: EntryRow| entry_row_key(r)).to_set()
    &&& v.entry_ids.dom() == v.entries.dom()
    &&& forall|i: int|
        0 <= i < entries.len() ==> v.entries[entry_row_key(#[trigger] entries[i])] == entry_row_stored(
            entries[i],
        ) && v.entry_ids[entry_row_key(entries[i])] == entries[i].id
}

/// Two models that the same rows describe hold the same roots, the same
/// entries and the same entry ids.
proof fn lemma_rows_determine(
    v: IndexView,
    w: IndexView,
    roots: Seq<RootRow>,
    entries: Seq<EntryRow>,
)
    requires
        rows_describe(v, roots, entries),
        rows_describe(w, roots, entries),
    ensures
        w.roots == v.roots,
        w.entries == v.entries,
        w.entry_ids == v.entry_ids,
{
    let ids = roots.map_values(|r: RootRow| r.id);
    let keys = entries.map_values(|r: EntryRow| entry_row_key(r));
    assert forall|id: i64| #[trigger] v.roots.contains_key(id) implies w.roots[id] == v.roots[id] by {
        let i = choose|i: int| 0 <= i < ids.len() && ids[i] == id;
        assert(roots[i].id == id);
    }
    assert forall|k: EntryKey| #[trigger] v.entries.contains_key(k) implies w.entries[k]
        == v.entries[k] && w.entry_ids[k] == v.entry_ids[k] by {
        let i = choose|i: int| 0 <= i < keys.len() && keys[i] == k;
        assert(entry_row_key(entries[i]) == k);
    }
    assert(w.roots =~= v.roots);
    assert(w.entries =~= v.entries);
    assert(w.entry_ids =~= v.entry_ids);
}

/// What restoring an index from rows gives: an index at `path` holding
/// exactly the rows when they are consistent, and `InconsistentRows`
/// otherwise.
pub open spec fn restore_outcome(
    path: Seq<char>,
    roots: Seq<RootRow>,
    entries: Seq<EntryRow>,
    result: Result<Index, IndexError>,
) -> bool {
    match result {
        Ok(index) => {
            &&& rows_consistent(roots, entries)
            &&& rows_describe(index@, roots, entries)
            &&& index.location() == path
            &&& index_valid(index@)
        },
        Err(e) => e == IndexError::InconsistentRows && !rows_consistent(roots, entries),
    }
}

/// Reading back what was written: restoring the rows of a snapshot of an
/// index succeeds and gives back the same roots, the same entries and the
/// same entry ids.
pub proof fn lemma_restore_snapshot(
    v: IndexView,
    roots: Seq<RootRow>,
    entries: Seq<EntryRow>,
    path: Seq<char>,
    result: Result<Index, IndexError>,
)
    requires
        rows_consistent(roots, entries),
        rows_describe(v, roots, entries),
        restore_outcome(path, roots, entries, result),
    ensures
        result is Ok,
        result->Ok_0@.roots == v.roots,
        result->Ok_0@.entries == v.entries,
        result->Ok_0@.entry_ids == v.entry_ids,
{
    lemma_rows_determine(v, result->Ok_0@, roots, entries);
}

/// Registering a root: registration fails only when the path is new and no
/// root id is left, and then changes nothing. Otherwise the id returned is
/// that of the one root registered under the path, which now carries the
/// given device id; a path registered before keeps its id, state, scan
/// record and error count, and a new path gets an unused id in the initial
/// state with no entries below it. Other roots and all entries are left as
/// they were.
pub proof fn lemma_register_root(
    v: IndexView,
    w: IndexView,
    path: Seq<char>,
    device_id: u64,
    result: Result<i64, IndexError>,
)
    requires
        index_valid(v),
        registered(v, w, path, device_id, result),
    ensures
        w.entries == v.entries,
        w.entry_ids == v.entry_ids,
        result is Err <==> (root_with_path(v.roots, path) is None && v.next_root_id > i64::MAX && forall|c: i64|
            1 <= c ==> #[trigger] v.roots.contains_key(c)),
        result is Err ==> w.roots == v.roots,
        result matches Ok(id) ==> {
            &&& w.roots.contains_key(id)
            &&& w.roots[id].path == path
            &&& w.roots[id].device_id == device_id
            &&& forall|other: i64| #[trigger] w.roots.contains_key(other) && w.roots[other].path == path ==> other == id
            &&& forall|other: i64| other != id ==> (#[trigger] w.roots.contains_key(other) == v.roots.contains_key(other))
                && (v.roots.contains_key(other) ==> w.roots[other] == v.roots[other])
            &&& match root_with_path(v.roots, path) {
                Some(previous) => previous == id && w.roots[id] == (RootView { device_id, ..v.roots[id] }),
                None => {
                    &&& !v.roots.contains_key(id)
                    &&& w.roots[id] == initial_root(path, device_id)
                    &&& forall|k: EntryKey| #[trigger] w.entries.contains_key(k) ==> k.0 != id
                },
            }
        },
{
    match root_with_path(v.roots, path) {
        Some(previous) => {
            assert(v.roots.contains_key(previous) && v.roots[previous].path == path);
            assert forall|other: i64| #[trigger] w.roots.contains_key(other) && w.roots[other].path == path implies other == previous by {
                if other != previous {
                    assert(v.roots.contains_key(other));
                    assert(v.roots[other].path == path);
                }
            }
        },
        None => {
            if v.next_root_id > i64::MAX && exists|c: i64| 1 <= c && !v.roots.dom().contains(c) {
                let c = choose|c: i64| 1 <= c && !v.roots.dom().contains(c);
                lemma_smallest_unused_exists(v.roots.dom(), c);
            }
            if result is Ok {
                let id = result->Ok_0;
                assert(!v.roots.contains_key(id)) by {
                    if v.roots.contains_key(id) {
                        assert(id < v.next_root_id);
                    }
                }
                assert forall|other: i64| #[trigger] w.roots.contains_key(other) && w.roots[other].path == path implies other == id by {
                    if other != id {
                        assert(v.roots.contains_key(other) && v.roots[other].path == path);
                    }
                }
                assert forall|k: EntryKey| #[trigger] w.entries.contains_key(k) implies k.0 != id by {
                    assert(v.roots.contains_key(k.0));
                }
            }
        },
    }
}

/// When some positive identifier is unused, there is a smallest one.
proof fn lemma_smallest_unused_exists(used: Set<i64>, c: i64)
    requires
        1 <= c,
        !used.contains(c),
    ensures
        smallest_unused_at(used, smallest_unused(used)),
    decreases c,
{
    if exists|d: i64| 1 <= d < c && !used.contains(d) {
        let d = choose|d: i64| 1 <= d < c && !used.contains(d);
        lemma_smallest_unused_exists(used, d);
    } else {
        assert(smallest_unused_at(used, c));
    }
}

/// The smallest unused positive identifier is the only one.
proof fn lemma_smallest_unused_unique(used: Set<i64>, c: i64)
    requires
        smallest_unused_at(used, c),
    ensures
        smallest_unused(used) == c,
{
    lemma_smallest_unused_exists(used, c);
    let m = smallest_unused(used);
    if m < c {
        assert(used.contains(m));
    } else if c < m {
        assert(used.contains(c));
    }
}

/// Fewer than `i64::MAX` identifiers in use leave a positive one free.
proof fn lemma_some_id_free(used: Set<i64>)
    requires
        used.finite(),
        used.len() < i64::MAX,
    ensures
        exists|c: i64| 1 <= c && !used.contains(c),
{
    if forall|c: i64| 1 <= c ==> #[trigger] used.contains(c) {
        let f = |x: i64| x as int;
        let ints = used.map(f);
        vstd::set_lib::lemma_map_size_bound(used, ints, f);
        let range = vstd::set_lib::set_int_range(1, i64::MAX + 1);
        vstd::set_lib::lemma_int_range(1, i64::MAX + 1);
        assert forall|i: int| range.contains(i) implies ints.contains(i) by {
            let c = i as i64;
            assert(used.contains(c));
            assert(f(c) == i);
        }
        vstd::set_lib::lemma_len_subset(range, ints);
    }
}

// ---------------------------------------------------------------------------
// Internal representation.
// ---------------------------------------------------------------------------

struct EntryRecord {
    id: i64,
    root_id: i64,
    entry: IndexedEntry,
    generation: i64,
    name_chars: Vec<char>,
}

spec fn key_of(r: EntryRecord) -> EntryKey {
    (r.root_id, r.entry.relative_path@)
}

spec fn stored_of(r: EntryRecord) -> StoredEntry {
    StoredEntry { data: r.entry@, generation: r.generation }
}

spec fn record_keys(s: Seq<EntryRecord>) -> Seq<EntryKey> {
    s.map_values(|r: EntryRecord| key_of(r))
}

spec fn record_paths(s: Seq<EntryRecord>) -> Seq<Seq<u8>> {
    s.map_values(|r: EntryRecord| r.entry.relative_path@)
}

spec fn root_ids(s: Seq<RootRow>) -> Seq<i64> {
    s.map_values(|r: RootRow| r.id)
}

/// A removal rule: the keys it selects are taken out of the index.
enum Prune {
    Subtree { root_id: i64, prefix: Vec<u8> },
    Stale { root_id: i64, generation: i64 },
}

spec fn prune_hits(rule: Prune, entries: Map<EntryKey, StoredEntry>, key: EntryKey) -> bool {
    match rule {
        Prune::Subtree { root_id, prefix } => in_subtree(key, root_id, prefix@),
        Prune::Stale { root_id, generation } => is_stale(entries, key, root_id, generation),
    }
}

spec fn prune_pred(rule: Prune, entries: Map<EntryKey, StoredEntry>) -> spec_fn(EntryKey) -> bool {
    match rule {
        Prune::Subtree { root_id, prefix } => subtree_pred(root_id, prefix@),
        Prune::Stale { root_id, generation } => stale_pred(entries, root_id, generation),
    }
}


spec fn prune_hits_rec(rule: Prune, rec: EntryRecord) -> bool {
    match rule {
        Prune::Subtree { root_id, prefix } => in_subtree(key_of(rec), root_id, prefix@),
        Prune::Stale { root_id, generation } => rec.root_id == root_id && rec.generation != generation,
    }
}


/// What a search accepts: entries whose lower-cased name contains a term, or
/// entries that a parsed query accepts.
enum Filter {
    Name { term: Vec<char> },
    Query {
        names: Vec<Vec<char>>,
        globs: Vec<bool>,
        paths: Vec<Vec<char>>,
        match_path: bool,
        query: Ghost<SearchQueryView>,
    },
}

spec fn filter_wf(f: Filter) -> bool {
    match f {
        Filter::Name { .. } => true,
        Filter::Query { names, globs, paths, match_path, query } => {
            &&& names@.len() == query@.name_terms.len()
            &&& globs@.len() == names@.len()
            &&& paths@.len() == query@.path_terms.len()
            &&& match_path == query@.match_path
            &&& forall|i: int| 0 <= i < names@.len() ==> (#[trigger] names@[i])@ == query@.name_terms[i]
            &&& forall|i: int| 0 <= i < names@.len() ==> #[trigger] globs@[i] == has_wildcard_chars(query@.name_terms[i])
            &&& forall|i: int| 0 <= i < paths@.len() ==> (#[trigger] paths@[i])@ == query@.path_terms[i]
        },
    }
}

spec fn filter_accepts(f: Filter, v: IndexView, key: EntryKey) -> bool {
    match f {
        Filter::Name { term } => name_contains(v, term@, key),
        Filter::Query { query, .. } => query_matches(v, query@, key),
    }
}

fn term_matches_exec(term: &Vec<char>, glob: bool, target: &Vec<char>) -> (r: bool)
    requires
        glob == has_wildcard_chars(term@),
    ensures
        r == term_matches(term@, target@),
{
    if glob {
        glob_match_chars(term, target)
    } else {
        contains_chars(target, term)
    }
}




/// The best `limit` results offered so far, in name order, with the keys
/// they came from and the set of keys offered.
struct TopList {
    out: Vec<SearchResult>,
    names: Vec<Vec<char>>,
    limit: usize,
    keys: Ghost<Seq<EntryKey>>,
    seen: Ghost<Set<EntryKey>>,
}

impl TopList {
    spec fn inv(&self, v: IndexView) -> bool {
        let ks = self.keys@;
        let seen = self.seen@;
        &&& seen.finite()
        &&& self.out@.len() == self.names@.len()
        &&& self.out@.len() == ks.len()
        &&& self.out@.len() <= self.limit
        &&& self.out@.len() <= seen.len()
        &&& self.out@.len() == self.limit || self.out@.len() == seen.len()
        &&& ks.no_duplicates()
        &&& forall|i: int| 0 <= i < ks.len() ==> seen.contains(#[trigger] ks[i])
        &&& forall|i: int| 0 <= i < ks.len() ==> v.entries.contains_key(#[trigger] ks[i]) && self.out@[i]@ == result_of(v, ks[i])
        &&& forall|i: int| 0 <= i < ks.len() ==> (#[trigger] self.names@[i])@ == display_name_of(v, ks[i])
        &&& sorted_names(ks.map_values(|k: EntryKey| display_name_of(v, k)))
        &&& forall|k: EntryKey, i: int| seen.contains(k) && !ks.contains(k) && 0 <= i < ks.len()
            ==> name_le(#[trigger] display_name_of(v, ks[i]), #[trigger] display_name_of(v, k))
        &&& self.out@.len() < self.limit ==> forall|k: EntryKey| seen.contains(k) ==> ks.contains(k)
    }

    fn new(limit: usize, v: Ghost<IndexView>) -> (t: Self)
        ensures
            t.inv(v@),
            t.limit == limit,
            t.seen@ == Set::<EntryKey>::empty(),
    {
        let t = TopList {
            out: Vec::new(),
            names: Vec::new(),
            limit,
            keys: Ghost(Seq::empty()),
            seen: Ghost(Set::empty()),
        };
        assert(t.keys@.map_values(|k: EntryKey| display_name_of(v@, k)) =~= Seq::empty());
        t
    }

    /// Whether an entry with this name would be kept: always while the list
    /// is not full, otherwise only when it sorts before the last one kept.
    fn admits(&self, v: Ghost<IndexView>, name: &Vec<char>) -> (r: bool)
        requires
            self.inv(v@),
        ensures
            r == (self.out@.len() < self.limit || (self.keys@.len() > 0 && !name_le(
                display_name_of(v@, self.keys@.last()),
                name@,
            ))),
            !r ==> self.out@.len() == self.limit && (self.keys@.len() == 0 || name_le(
                display_name_of(v@, self.keys@.last()),
                name@,
            )),
    {
        let n = self.names.len();
        if n < self.limit {
            true
        } else if n == 0 {
            false
        } else {
            let r = !name_le_chars(&self.names[n - 1], name);
            proof {
                assert(self.names@[n - 1]@ == display_name_of(v@, self.keys@[n - 1]));
            }
            r
        }
    }

    /// Notes an entry that the full list does not keep.
    fn pass(&mut self, v: Ghost<IndexView>, key: Ghost<EntryKey>, name: &Vec<char>)
        requires
            old(self).inv(v@),
            !old(self).seen@.contains(key@),
            v@.entries.contains_key(key@),
            name@ == display_name_of(v@, key@),
            old(self).out@.len() == old(self).limit,
            old(self).keys@.len() == 0 || name_le(display_name_of(v@, old(self).keys@.last()), name@),
        ensures
            final(self).inv(v@),
            final(self).limit == old(self).limit,
            final(self).seen@ == old(self).seen@.insert(key@),
    {
        let ghost v = v@;
        let ghost key = key@;
        let ghost ks = self.keys@;
        let ghost old_seen = self.seen@;
        let ghost dn = |k: EntryKey| display_name_of(v, k);
        proof {
            self.seen = Ghost(old_seen.insert(key));
            assert(!ks.contains(key)) by {
                if ks.contains(key) {
                    let j = choose|j: int| 0 <= j < ks.len() && ks[j] == key;
                    assert(old_seen.contains(ks[j]));
                }
            }
            assert forall|k: EntryKey, i: int| self.seen@.contains(k) && !ks.contains(k) && 0 <= i < ks.len()
                implies name_le(#[trigger] display_name_of(v, ks[i]), #[trigger] display_name_of(v, k)) by {
                if k == key {
                    let last = ks.len() - 1;
                    assert(ks.map_values(dn)[i] == display_name_of(v, ks[i]));
                    assert(ks.map_values(dn)[last] == display_name_of(v, ks[last]));
                    if i < last {
                        assert(name_le(display_name_of(v, ks[i]), display_name_of(v, ks[last])));
                        lemma_name_trans(display_name_of(v, ks[i]), display_name_of(v, ks[last]), name@);
                    }
                } else {
                    assert(old_seen.contains(k));
                }
            }
            assert(self.seen@.len() == old_seen.len() + 1);
        }
    }

    fn offer(&mut self, v: Ghost<IndexView>, key: Ghost<EntryKey>, result: SearchResult, name: Vec<char>)
        requires
            old(self).inv(v@),
            !old(self).seen@.contains(key@),
            v@.entries.contains_key(key@),
            result@ == result_of(v@, key@),
            name@ == display_name_of(v@, key@),
        ensures
            final(self).inv(v@),
            final(self).limit == old(self).limit,
            final(self).seen@ == old(self).seen@.insert(key@),
    {
        let ghost v = v@;
        let ghost key = key@;
        let ghost dn = |k: EntryKey| display_name_of(v, k);
        let ghost old_ks = self.keys@;
        let ghost old_seen = self.seen@;
        let ghost old_names = old_ks.map_values(dn);
        let mut pos: usize = 0;
        while pos < self.names.len() && name_le_chars(&self.names[pos], &name)
            invariant
                pos <= self.names@.len(),
                self.names@.len() == old_ks.len(),
                dn == (|k: EntryKey| display_name_of(v, k)),
                forall|i: int| 0 <= i < old_ks.len() ==> (#[trigger] self.names@[i])@ == display_name_of(v, old_ks[i]),
                forall|i: int| 0 <= i < pos ==> name_le(old_names[i], name@),
                old_names == old_ks.map_values(dn),
            decreases self.names.len() - pos,
        {
            assert(self.names@[pos as int]@ == old_names[pos as int]);
            pos = pos + 1;
        }
        proof {
            if pos < self.names@.len() {
                assert(self.names@[pos as int]@ == old_names[pos as int]);
            }
            lemma_sorted_insert(old_names, pos as int, name@);
        }
        self.out.insert(pos, result);
        self.names.insert(pos, name);
        let ghost ks = old_ks.insert(pos as int, key);
        proof {
            old_ks.insert_ensures(pos as int, key);
            assert(ks.map_values(dn) =~= old_names.insert(pos as int, dn(key)));
            self.seen = Ghost(old_seen.insert(key));
            self.keys = Ghost(ks);
            assert forall|a: int, b: int| 0 <= a < ks.len() && 0 <= b < ks.len() && a != b implies ks[a] != ks[b] by {
                if a != pos && b != pos {
                    let oa = if a < pos { a } else { a - 1 };
                    let ob = if b < pos { b } else { b - 1 };
                    assert(old_ks[oa] != old_ks[ob]);
                } else if a == pos {
                    let ob = if b < pos { b } else { b - 1 };
                    assert(old_seen.contains(old_ks[ob]));
                } else {
                    let oa = if a < pos { a } else { a - 1 };
                    assert(old_seen.contains(old_ks[oa]));
                }
            }
            assert forall|i: int| 0 <= i < ks.len() implies self.seen@.contains(#[trigger] ks[i])
                && v.entries.contains_key(ks[i]) && self.out@[i]@ == result_of(v, ks[i])
                && (#[trigger] self.names@[i])@ == display_name_of(v, ks[i]) by {
                if i < pos {
                    assert(ks[i] == old_ks[i]);
                } else if i > pos {
                    assert(ks[i] == old_ks[i - 1]);
                }
            }
        }
        if self.out.len() > self.limit {
            let ghost full_ks = ks;
            let ghost full_names = ks.map_values(dn);
            let ghost last = full_ks[full_ks.len() - 1];
            self.out.pop();
            self.names.pop();
            proof {
                let nks = full_ks.drop_last();
                self.keys = Ghost(nks);
                assert(nks.map_values(dn) =~= full_names.drop_last());
                assert forall|k: EntryKey, i: int| self.seen@.contains(k) && !nks.contains(k) && 0 <= i < nks.len()
                    implies name_le(#[trigger] display_name_of(v, nks[i]), #[trigger] display_name_of(v, k)) by {
                    assert(nks[i] == full_ks[i]);
                    assert(full_names[i] == display_name_of(v, nks[i]));
                    assert(name_le(full_names[i], full_names[full_ks.len() - 1]));
                    if k == last {
                    } else if k == key {
                        assert(full_ks[pos as int] == key);
                        assert(nks[pos as int] == key);
                    } else {
                        assert(!old_ks.contains(k)) by {
                            if old_ks.contains(k) {
                                let j = choose|j: int| 0 <= j < old_ks.len() && old_ks[j] == k;
                                if j < pos {
                                    assert(full_ks[j] == k);
                                    assert(nks[j] == k);
                                } else {
                                    assert(full_ks[j + 1] == k);
                                    if j + 1 < full_ks.len() - 1 {
                                        assert(nks[j + 1] == k);
                                    }
                                }
                            }
                        }
                        assert(old_seen.contains(k));
                        if i == pos {
                            assert(full_ks[full_ks.len() - 1] == old_ks[old_ks.len() - 1]);
                            assert(name_le(display_name_of(v, old_ks[old_ks.len() - 1]), display_name_of(v, k)));
                            lemma_name_trans(full_names[i], full_names[full_ks.len() - 1], display_name_of(v, k));
                        } else if i < pos {
                            assert(full_ks[i] == old_ks[i]);
                        } else {
                            assert(full_ks[i] == old_ks[i - 1]);
                        }
                    }
                }
                assert forall|a: int, b: int| 0 <= a < nks.len() && 0 <= b < nks.len() && a != b implies nks[a] != nks[b] by {
                    assert(full_ks[a] != full_ks[b]);
                }
                assert forall|i: int| 0 <= i < nks.len() implies self.seen@.contains(#[trigger] nks[i])
                    && v.entries.contains_key(nks[i]) && self.out@[i]@ == result_of(v, nks[i])
                    && (#[trigger] self.names@[i])@ == display_name_of(v, nks[i]) by {
                    assert(nks[i] == full_ks[i]);
                }
                assert(self.seen@.len() == old_seen.len() + 1);
            }
        } else {
            proof {
                assert(self.seen@.len() == old_seen.len() + 1);
                assert forall|k: EntryKey| self.seen@.contains(k) implies ks.contains(k) by {
                    if k == key {
                        assert(ks[pos as int] == key);
                    } else {
                        assert(old_seen.contains(k));
                        let j = choose|j: int| 0 <= j < old_ks.len() && old_ks[j] == k;
                        if j < pos {
                            assert(ks[j] == k);
                        } else {
                            assert(ks[j + 1] == k);
                        }
                    }
                }
                assert forall|k: EntryKey, i: int| self.seen@.contains(k) && !ks.contains(k) && 0 <= i < ks.len()
                    implies name_le(#[trigger] display_name_of(v, ks[i]), #[trigger] display_name_of(v, k)) by {
                }
            }
        }
    }
}

/// The path index of a sequence of records.
fn index_paths(records: &Vec<EntryRecord>) -> (b: PathBuckets)
    ensures
        b.covers(record_paths(records@)),
{
    let mut b = PathBuckets::new();
    assert(record_paths(records@.take(0)) =~= Seq::empty());
    let mut i: usize = 0;
    while i < records.len()
        invariant
            i <= records@.len(),
            b.covers(record_paths(records@.take(i as int))),
        decreases records.len() - i,
    {
        proof {
            assert(record_paths(records@.take(i as int)).len() == i);
        }
        b.add(Ghost(record_paths(records@.take(i as int))), i, records[i].entry.relative_path.as_slice());
        assert(record_paths(records@.take(i + 1)) =~= record_paths(records@.take(i as int)).push(records@[i as int].entry.relative_path@));
        i = i + 1;
    }
    assert(records@.take(records@.len() as int) =~= records@);
    b
}

struct Catalog {
    roots: Vec<RootRow>,
    entries: Vec<EntryRecord>,
    next_root_id: i128,
    next_entry_id: i128,
    paths_index: PathBuckets,
    root_map: Ghost<Map<i64, RootView>>,
    entry_map: Ghost<Map<EntryKey, StoredEntry>>,
    id_map: Ghost<Map<EntryKey, i64>>,
}

impl Catalog {
    spec fn model(&self) -> IndexView {
        IndexView {
            roots: self.root_map@,
            entries: self.entry_map@,
            entry_ids: self.id_map@,
            next_root_id: self.next_root_id as int,
            next_entry_id: self.next_entry_id as int,
        }
    }

    spec fn roots_wf(&self) -> bool {
        &&& self.roots@.len() == 0 ==> self.next_root_id == 1
        &&& self.roots@.len() > 0 ==> exists|i: int|
            0 <= i < self.roots@.len() && #[trigger] self.roots@[i].id == self.next_root_id - 1
        &&& forall|i: int, j: int|
            0 <= i < j < self.roots@.len() ==> self.roots@[i].id != self.roots@[j].id
                && self.roots@[i].path@ != self.roots@[j].path@
        &&& forall|i: int|
            0 <= i < self.roots@.len() ==> #[trigger] self.roots@[i].id < self.next_root_id
        &&& self.root_map@.dom() == root_ids(self.roots@).to_set()
        &&& forall|i: int|
            0 <= i < self.roots@.len() ==> self.root_map@[#[trigger] self.roots@[i].id]
                == self.roots@[i].root_view()
    }

    spec fn entries_wf(&self) -> bool {
        &&& self.entries@.len() == 0 ==> self.next_entry_id == 1
        &&& record_keys(self.entries@).no_duplicates()
        &&& forall|i: int, j: int|
            0 <= i < j < self.entries@.len() ==> self.entries@[i].id != self.entries@[j].id
        &&& forall|i: int|
            0 <= i < self.entries@.len() ==> #[trigger] self.entries@[i].id < self.next_entry_id
        &&& self.entry_map@.dom() == record_keys(self.entries@).to_set()
        &&& self.id_map@.dom() == self.entry_map@.dom()
        &&& forall|i: int|
            0 <= i < self.entries@.len() ==> self.entry_map@[key_of(#[trigger] self.entries@[i])]
                == stored_of(self.entries@[i]) && self.id_map@[key_of(self.entries@[i])]
                == self.entries@[i].id
        &&& forall|i: int|
            0 <= i < self.entries@.len() ==> self.root_map@.contains_key(
                #[trigger] self.entries@[i].root_id,
            )
        &&& forall|i: int|
            0 <= i < self.entries@.len() ==> (#[trigger] self.entries@[i]).name_chars@
                == self.entries@[i].entry.normalized_name@
        &&& self.paths_index.covers(record_paths(self.entries@))
        &&& self.entries@.len() > 0 ==> exists|i: int|
            0 <= i < self.entries@.len() && #[trigger] self.entries@[i].id == self.next_entry_id - 1
    }

    spec fn wf(&self) -> bool {
        self.roots_wf() && self.entries_wf()
    }

    fn empty() -> (c: Self)
        ensures
            c.wf(),
            c.model().roots.is_empty(),
            c.model().entries.is_empty(),
            c.model().entry_ids.is_empty(),
            c.model().next_root_id == 1,
            c.model().next_entry_id == 1,
            c.roots@.len() == 0,
            c.entries@.len() == 0,
    {
        let c = Catalog {
            roots: Vec::new(),
            entries: Vec::new(),
            next_root_id: 1,
            next_entry_id: 1,
            paths_index: PathBuckets::new(),
            root_map: Ghost(Map::empty()),
            entry_map: Ghost(Map::empty()),
            id_map: Ghost(Map::empty()),
        };
        assert(root_ids(c.roots@).to_set() =~= Set::empty());
        assert(record_keys(c.entries@).to_set() =~= Set::empty());
        assert(record_paths(c.entries@) =~= Seq::empty());
        c
    }

    fn find_root(&self, root_id: i64) -> (found: Option<usize>)
        requires
            self.wf(),
        ensures
            match found {
                Some(i) => i < self.roots@.len() && self.roots@[i as int].id == root_id,
                None => !self.model().roots.contains_key(root_id),
            },
    {
        let mut i: usize = 0;
        while i < self.roots.len()
            invariant
                i <= self.roots@.len(),
                forall|k: int| 0 <= k < i ==> self.roots@[k].id != root_id,
            decreases self.roots.len() - i,
        {
            if self.roots[i].id == root_id {
                return Some(i);
            }
            i = i + 1;
        }
        proof {
            if self.root_map@.contains_key(root_id) {
                let k = choose|k: int| 0 <= k < self.roots@.len() && root_ids(self.roots@)[k] == root_id;
                assert(self.roots@[k].id == root_id);
            }
        }
        None
    }

    /// The id a new root gets: the next one while it fits, then the smallest
    /// unused positive one, if any is left.
    fn fresh_root_id(&self) -> (id: Option<i64>)
        requires
            self.wf(),
        ensures
            id == fresh_id(self.model().roots.dom(), self.model().next_root_id),
    {
        if self.next_root_id <= i64::MAX as i128 {
            return Some(self.next_root_id as i64);
        }
        let ghost used = self.model().roots.dom();
        let mut c: i64 = 1;
        loop
            invariant
                self.wf(),
                used == self.model().roots.dom(),
                self.next_root_id > i64::MAX,
                1 <= c,
                forall|d: i64| 1 <= d < c ==> #[trigger] used.contains(d),
            decreases i64::MAX - c,
        {
            match self.find_root(c) {
                None => {
                    proof {
                        assert(smallest_unused_at(used, c));
                        lemma_smallest_unused_unique(used, c);
                    }
                    return Some(c);
                },
                Some(i) => {
                    proof {
                        self.lemma_root_lookup(i as int);
                    }
                    if c == i64::MAX {
                        proof {
                            assert forall|d: i64| 1 <= d implies #[trigger] used.contains(d) by {
                                if d < c {
                                    assert(used.contains(d));
                                }
                            }
                        }
                        return None;
                    }
                    c = c + 1;
                },
            }
        }
    }

    fn find_root_path(&self, path: &String) -> (found: Option<usize>)
        requires
            self.wf(),
        ensures
            match found {
                Some(i) => i < self.roots@.len() && self.roots@[i as int].path@ == path@,
                None => forall|k: int| 0 <= k < self.roots@.len() ==> self.roots@[k].path@ != path@,
            },
    {
        let mut i: usize = 0;
        while i < self.roots.len()
            invariant
                i <= self.roots@.len(),
                forall|k: int| 0 <= k < i ==> self.roots@[k].path@ != path@,
            decreases self.roots.len() - i,
        {
            if self.roots[i].path == *path {
                return Some(i);
            }
            i = i + 1;
        }
        None
    }

    proof fn lemma_root_lookup(&self, i: int)
        requires
            self.wf(),
            0 <= i < self.roots@.len(),
        ensures
            self.model().roots.contains_key(self.roots@[i].id),
            self.model().roots[self.roots@[i].id] == self.roots@[i].root_view(),
    {
        assert(root_ids(self.roots@)[i] == self.roots@[i].id);
    }

    proof fn lemma_root_path_absent(&self, path: Seq<char>)
        requires
            self.wf(),
            forall|k: int| 0 <= k < self.roots@.len() ==> self.roots@[k].path@ != path,
        ensures
            root_with_path(self.model().roots, path) is None,
    {
        if exists|id: i64| self.root_map@.contains_key(id) && self.root_map@[id].path == path {
            let id = choose|id: i64| self.root_map@.contains_key(id) && self.root_map@[id].path == path;
            let k = choose|k: int| 0 <= k < self.roots@.len() && root_ids(self.roots@)[k] == id;
            assert(self.roots@[k].id == id);
        }
    }

    proof fn lemma_root_path_present(&self, i: int)
        requires
            self.wf(),
            0 <= i < self.roots@.len(),
        ensures
            root_with_path(self.model().roots, self.roots@[i].path@) == Some(self.roots@[i].id),
    {
        let path = self.roots@[i].path@;
        self.lemma_root_lookup(i);
        let id = choose|id: i64| self.root_map@.contains_key(id) && self.root_map@[id].path == path;
        let k = choose|k: int| 0 <= k < self.roots@.len() && root_ids(self.roots@)[k] == id;
        assert(self.roots@[k].id == id);
        if k != i {
            if k < i {
                assert(self.roots@[k].path@ != self.roots@[i].path@);
            } else {
                assert(self.roots@[i].path@ != self.roots@[k].path@);
            }
        }
    }

    fn set_root(&mut self, i: usize, row: RootRow)
        requires
            old(self).wf(),
            i < old(self).roots@.len(),
            row.id == old(self).roots@[i as int].id,
            row.path@ == old(self).roots@[i as int].path@,
        ensures
            final(self).wf(),
            final(self).model() == (IndexView {
                roots: old(self).model().roots.insert(row.id, row.root_view()),
                ..old(self).model()
            }),
    {
        let ghost id = row.id;
        let ghost rv = row.root_view();
        proof {
            self.lemma_root_lookup(i as int);
        }
        self.roots.set(i, row);
        self.root_map = Ghost(self.root_map@.insert(id, rv));
        assert(root_ids(self.roots@) =~= root_ids(old(self).roots@));
        assert forall|k: int| 0 <= k < self.roots@.len() implies self.root_map@[
            #[trigger] self.roots@[k].id] == self.roots@[k].root_view() by {
            if k != i {
                assert(self.roots@[k] == old(self).roots@[k]);
                if k < i {
                    assert(old(self).roots@[k].id != old(self).roots@[i as int].id);
                } else {
                    assert(old(self).roots@[i as int].id != old(self).roots@[k].id);
                }
            }
        }
        assert forall|k: int, j: int| 0 <= k < j < self.roots@.len() implies self.roots@[k].id
            != self.roots@[j].id && self.roots@[k].path@ != self.roots@[j].path@ by {
            assert(old(self).roots@[k].id != old(self).roots@[j].id);
        }
        assert(self.root_map@.dom() =~= old(self).root_map@.dom());
        proof {
            if self.roots@.len() > 0 {
                let w = choose|w: int| 0 <= w < old(self).roots@.len() && #[trigger] old(self).roots@[w].id
                    == self.next_root_id - 1;
                assert(self.roots@[w].id == self.next_root_id - 1);
            }
        }
    }

    fn register_root(&mut self, path: String, device_id: u64) -> (result: Result<i64, IndexError>)
        requires
            old(self).wf(),
        ensures
            final(self).wf(),
            registered(old(self).model(), final(self).model(), path@, device_id, result),
    {
        match self.find_root_path(&path) {
            Some(i) => {
                proof {
                    self.lemma_root_path_present(i as int);
                    self.lemma_root_lookup(i as int);
                }
                let old_row = &self.roots[i];
                let row = RootRow {
                    id: old_row.id,
                    path: old_row.path.clone(),
                    device_id,
                    state: old_row.state,
                    last_scan_ms: old_row.last_scan_ms,
                    last_scan_duration_ms: old_row.last_scan_duration_ms,
                    error_count: old_row.error_count,
                };
                let id = row.id;
                self.set_root(i, row);
                Ok(id)
            },
            None => {
                proof {
                    self.lemma_root_path_absent(path@);
                }
                let id = match self.fresh_root_id() {
                    None => {
                        return Err(IndexError::IdsExhausted);
                    },
                    Some(id) => id,
                };
                let ghost used = self.model().roots.dom();
                proof {
                    if self.next_root_id > i64::MAX {
                        lemma_smallest_unused_exists(used, choose|c: i64| 1 <= c && !used.contains(c));
                    }
                    assert(!used.contains(id));
                    assert(forall|k: int| 0 <= k < self.roots@.len() ==> self.roots@[k].id != id) by {
                        assert forall|k: int| 0 <= k < self.roots@.len() implies self.roots@[k].id != id by {
                            self.lemma_root_lookup(k);
                        }
                    }
                }
                let row = RootRow {
                    id,
                    path,
                    device_id,
                    state: RootState::Initializing,
                    last_scan_ms: None,
                    last_scan_duration_ms: None,
                    error_count: 0,
                };
                let ghost rv = row.root_view();
                let ghost old_roots = self.roots@;
                let ghost old_next = self.next_root_id;
                self.roots.push(row);
                if self.next_root_id <= i64::MAX as i128 {
                    self.next_root_id = self.next_root_id + 1;
                }
                self.root_map = Ghost(self.root_map@.insert(id, rv));
                proof {
                    assert(root_ids(self.roots@) =~= root_ids(old_roots).push(id));
                    root_ids(old_roots).lemma_push_to_set_commute(id);
                    assert forall|k: int| 0 <= k < self.roots@.len() implies self.root_map@[
                        #[trigger] self.roots@[k].id] == self.roots@[k].root_view() by {
                        if k < old_roots.len() {
                            assert(self.roots@[k] == old_roots[k]);
                            assert(old_roots[k].id != id);
                        }
                    }
                    assert forall|k: int, j: int| 0 <= k < j < self.roots@.len() implies self.roots@[k].id
                        != self.roots@[j].id && self.roots@[k].path@ != self.roots@[j].path@ by {
                        if j == old_roots.len() {
                            assert(old_roots[k].id != id);
                        }
                    }
                    assert forall|k: int| 0 <= k < self.roots@.len() implies #[trigger] self.roots@[k].id
                        < self.next_root_id by {
                        if k < old_roots.len() {
                            assert(old_roots[k].id < old_next);
                        }
                    }
                    if old_next <= i64::MAX {
                        assert(self.roots@[old_roots.len() as int].id == self.next_root_id - 1);
                    } else {
                        let w = choose|w: int| 0 <= w < old_roots.len() && #[trigger] old_roots[w].id == old_next - 1;
                        assert(self.roots@[w].id == self.next_root_id - 1);
                    }
                    assert forall|k: int| 0 <= k < self.entries@.len() implies self.root_map@.contains_key(
                        #[trigger] self.entries@[k].root_id) by {
                        assert(old(self).root_map@.contains_key(self.entries@[k].root_id));
                    }
                }
                Ok(id)
            },
        }
    }

    fn begin_scan(&mut self, root_id: i64)
        requires
            old(self).wf(),
        ensures
            final(self).wf(),
            final(self).model() == (IndexView {
                roots: scan_begun(old(self).model().roots, root_id),
                ..old(self).model()
            }),
    {
        match self.find_root(root_id) {
            Some(i) => {
                proof {
                    self.lemma_root_lookup(i as int);
                }
                let old_row = &self.roots[i];
                let row = RootRow {
                    id: old_row.id,
                    path: old_row.path.clone(),
                    device_id: old_row.device_id,
                    state: RootState::Scanning,
                    last_scan_ms: old_row.last_scan_ms,
                    last_scan_duration_ms: old_row.last_scan_duration_ms,
                    error_count: 0,
                };
                self.set_root(i, row);
            },
            None => {},
        }
    }

    fn find_entry(&self, root_id: i64, relative_path: &[u8]) -> (found: Option<usize>)
        requires
            self.wf(),
        ensures
            match found {
                Some(i) => i < self.entries@.len() && key_of(self.entries@[i as int]) == (
                    root_id,
                    relative_path@,
                ),
                None => !self.model().entries.contains_key((root_id, relative_path@)),
            },
    {
        let ghost paths = record_paths(self.entries@);
        let ghost key = (root_id, relative_path@);
        proof {
            if self.entry_map@.contains_key(key) {
                let k = choose|k: int| 0 <= k < self.entries@.len() && record_keys(self.entries@)[k] == key;
                assert(key_of(self.entries@[k]) == key);
                assert(paths[k] == relative_path@);
            }
        }
        let n = self.entries.len();
        let candidates = self.paths_index.candidates(Ghost(paths), relative_path);
        match candidates {
            None => {
                proof {
                    if self.entry_map@.contains_key(key) {
                        let k = choose|k: int| 0 <= k < self.entries@.len() && record_keys(self.entries@)[k] == key;
                        assert(key_of(self.entries@[k]) == key);
                        assert(paths[k] == relative_path@);
                    }
                }
                None
            },
            Some(bucket) => {
                let mut j: usize = 0;
                while j < bucket.len()
                    invariant
                        j <= bucket@.len(),
                        key == (root_id, relative_path@),
                        n == self.entries@.len(),
                        paths == record_paths(self.entries@),
                        paths.len() == self.entries@.len(),
                        forall|t: int| 0 <= t < bucket@.len() ==> (#[trigger] bucket@[t]) < paths.len(),
                        forall|k: int| 0 <= k < paths.len() && paths[k] == relative_path@ ==> bucket@.contains(k as usize),
                        forall|t: int| 0 <= t < j ==> key_of(self.entries@[#[trigger] bucket@[t] as int]) != key,
                    decreases bucket.len() - j,
                {
                    let i = bucket[j];
                    let rec = &self.entries[i];
                    if rec.root_id == root_id && bytes_equal(rec.entry.relative_path.as_slice(), relative_path) {
                        return Some(i);
                    }
                    assert(key_of(self.entries@[bucket@[j as int] as int]) != key);
                    j = j + 1;
                }
                proof {
                    if self.entry_map@.contains_key(key) {
                        let k = choose|k: int| 0 <= k < self.entries@.len() && record_keys(self.entries@)[k] == key;
                        assert(key_of(self.entries@[k]) == key);
                        assert(paths[k] == relative_path@);
                        assert(bucket@.contains(k as usize));
                        let t = choose|t: int| 0 <= t < bucket@.len() && bucket@[t] == k as usize;
                        assert(key_of(self.entries@[bucket@[t] as int]) != key);
                    }
                }
                None
            },
        }
    }

    proof fn lemma_entry_lookup(&self, i: int)
        requires
            self.wf(),
            0 <= i < self.entries@.len(),
        ensures
            self.model().entries.contains_key(key_of(self.entries@[i])),
            self.model().entries[key_of(self.entries@[i])] == stored_of(self.entries@[i]),
            self.model().entry_ids[key_of(self.entries@[i])] == self.entries@[i].id,
    {
        assert(record_keys(self.entries@)[i] == key_of(self.entries@[i]));
    }

    /// The index holds as many entries as records, and no more ids.
    proof fn lemma_entry_count(&self)
        requires
            self.wf(),
        ensures
            self.model().entries.dom().finite(),
            self.model().entries.dom().len() == self.entries@.len(),
            id_set(self.model().entry_ids).finite(),
            id_set(self.model().entry_ids).len() <= self.entries@.len(),
    {
        record_keys(self.entries@).unique_seq_to_set();
        vstd::seq_lib::seq_to_set_is_finite(record_keys(self.entries@));
        let ids = self.model().entry_ids;
        let f = |k: EntryKey| ids[k];
        assert(id_set(ids) =~= ids.dom().map(f));
        vstd::set_lib::lemma_map_size_bound(ids.dom(), ids.dom().map(f), f);
    }

    /// Whether some entry holds `id`.
    fn has_entry_id(&self, id: i64) -> (found: bool)
        requires
            self.wf(),
        ensures
            found == id_set(self.model().entry_ids).contains(id),
    {
        let ghost ids = self.model().entry_ids;
        let mut i: usize = 0;
        while i < self.entries.len()
            invariant
                self.wf(),
                ids == self.model().entry_ids,
                i <= self.entries@.len(),
                forall|k: int| 0 <= k < i ==> self.entries@[k].id != id,
            decreases self.entries.len() - i,
        {
            if self.entries[i].id == id {
                proof {
                    self.lemma_entry_lookup(i as int);
                    assert(ids.dom().contains(key_of(self.entries@[i as int])));
                }
                return true;
            }
            i = i + 1;
        }
        proof {
            if id_set(ids).contains(id) {
                let k = choose|k: EntryKey| ids.dom().contains(k) && id == ids[k];
                let j = choose|j: int| 0 <= j < self.entries@.len() && record_keys(self.entries@)[j] == k;
                assert(key_of(self.entries@[j]) == k);
                self.lemma_entry_lookup(j);
            }
        }
        false
    }

    /// The id a new entry gets: the next one while it fits, then the
    /// smallest unused positive one.
    fn fresh_entry_id(&self) -> (id: i64)
        requires
            self.wf(),
            self.entries@.len() < i64::MAX,
        ensures
            fresh_id(id_set(self.model().entry_ids), self.model().next_entry_id) == Some(id),
    {
        if self.next_entry_id <= i64::MAX as i128 {
            return self.next_entry_id as i64;
        }
        let ghost used = id_set(self.model().entry_ids);
        proof {
            self.lemma_entry_count();
            lemma_some_id_free(used);
        }
        let mut c: i64 = 1;
        loop
            invariant
                self.wf(),
                used == id_set(self.model().entry_ids),
                self.next_entry_id > i64::MAX,
                exists|c2: i64| 1 <= c2 && !used.contains(c2),
                1 <= c,
                forall|d: i64| 1 <= d < c ==> #[trigger] used.contains(d),
            decreases i64::MAX - c,
        {
            if !self.has_entry_id(c) {
                proof {
                    assert(smallest_unused_at(used, c));
                    lemma_smallest_unused_unique(used, c);
                }
                return c;
            }
            if c == i64::MAX {
                proof {
                    let c2 = choose|c2: i64| 1 <= c2 && !used.contains(c2);
                    if c2 < c {
                        assert(used.contains(c2));
                    }
                }
                return c;
            }
            c = c + 1;
        }
    }

    fn upsert_one(&mut self, root_id: i64, generation: i64, entry: &IndexedEntry)
        requires
            old(self).wf(),
            old(self).model().roots.contains_key(root_id),
            old(self).entries@.len() < i64::MAX,
        ensures
            final(self).wf(),
            final(self).entries@.len() <= old(self).entries@.len() + 1,
            final(self).model().roots == old(self).model().roots,
            final(self).next_root_id == old(self).next_root_id,
            final(self).model().entries == old(self).model().entries.insert(
                (root_id, entry@.relative_path),
                StoredEntry { data: entry@, generation },
            ),
            if old(self).model().entries.contains_key((root_id, entry@.relative_path)) {
                &&& final(self).next_entry_id == old(self).next_entry_id
                &&& final(self).model().entry_ids == old(self).model().entry_ids
            } else {
                &&& final(self).next_entry_id == (if old(self).next_entry_id <= i64::MAX {
                    old(self).next_entry_id + 1
                } else {
                    old(self).next_entry_id as int
                })
                &&& final(self).model().entry_ids == old(self).model().entry_ids.insert(
                    (root_id, entry@.relative_path),
                    fresh_id(id_set(old(self).model().entry_ids), old(self).model().next_entry_id)->0,
                )
            },
    {
        let ghost key = (root_id, entry@.relative_path);
        let ghost st = StoredEntry { data: entry@, generation };
        let ghost old_recs = self.entries@;
        let name_chars = chars_of(entry.normalized_name.as_str());
        match self.find_entry(root_id, entry.relative_path.as_slice()) {
            Some(i) => {
                proof {
                    self.lemma_entry_lookup(i as int);
                }
                let id = self.entries[i].id;
                let rec = EntryRecord {
                    id,
                    root_id,
                    entry: entry.duplicate(),
                    generation,
                    name_chars,
                };
                self.entries.set(i, rec);
                self.entry_map = Ghost(self.entry_map@.insert(key, st));
                self.id_map = Ghost(self.id_map@.insert(key, id));
                proof {
                    assert(record_keys(self.entries@) =~= record_keys(old_recs));
                    assert(record_paths(self.entries@) =~= record_paths(old_recs));
                    assert(self.entry_map@.dom() =~= old(self).entry_map@.dom());
                    assert(self.id_map@ =~= old(self).id_map@);
                    assert forall|k: int| 0 <= k < self.entries@.len() implies self.entry_map@[key_of(
                        #[trigger] self.entries@[k])] == stored_of(self.entries@[k])
                        && self.id_map@[key_of(self.entries@[k])] == self.entries@[k].id by {
                        if k != i {
                            assert(self.entries@[k] == old_recs[k]);
                            assert(record_keys(old_recs)[k] != record_keys(old_recs)[i as int]);
                        }
                    }
                    assert forall|k: int, j: int| 0 <= k < j < self.entries@.len() implies self.entries@[k].id
                        != self.entries@[j].id by {
                        assert(old_recs[k].id != old_recs[j].id);
                    }
                    assert forall|k: int| 0 <= k < self.entries@.len() implies #[trigger] self.entries@[k].id
                        < self.next_entry_id by {
                        assert(old_recs[k].id < self.next_entry_id);
                    }
                    assert forall|k: int| 0 <= k < self.entries@.len() implies self.root_map@.contains_key(
                        #[trigger] self.entries@[k].root_id) by {
                        if k != i {
                            assert(self.entries@[k] == old_recs[k]);
                        }
                    }
                    assert forall|k: int| 0 <= k < self.entries@.len() implies (#[trigger] self.entries@[k]).name_chars@
                        == self.entries@[k].entry.normalized_name@ by {
                        if k != i {
                            assert(self.entries@[k] == old_recs[k]);
                        }
                    }
                    if old_recs.len() > 0 {
                        let w = choose|w: int|
                            0 <= w < old_recs.len() && #[trigger] old_recs[w].id == self.next_entry_id - 1;
                        assert(self.entries@[w].id == self.next_entry_id - 1);
                    }
                }
            },
            None => {
                let id = self.fresh_entry_id();
                let ghost used = id_set(self.model().entry_ids);
                let ghost old_next = self.next_entry_id;
                proof {
                    if old_next > i64::MAX {
                        self.lemma_entry_count();
                        lemma_some_id_free(used);
                        lemma_smallest_unused_exists(used, choose|c: i64| 1 <= c && !used.contains(c));
                    }
                    assert forall|k: int| 0 <= k < old_recs.len() implies old_recs[k].id != id && old_recs[k].id
                        < old_next by {
                        self.lemma_entry_lookup(k);
                        assert(self.model().entry_ids.dom().contains(key_of(old_recs[k])));
                        assert(used.contains(old_recs[k].id));
                    }
                }
                self.paths_index.add(Ghost(record_paths(old_recs)), self.entries.len(), entry.relative_path.as_slice());
                let rec = EntryRecord {
                    id,
                    root_id,
                    entry: entry.duplicate(),
                    generation,
                    name_chars,
                };
                self.entries.push(rec);
                assert(record_paths(self.entries@) =~= record_paths(old_recs).push(entry.relative_path@));
                if self.next_entry_id <= i64::MAX as i128 {
                    self.next_entry_id = self.next_entry_id + 1;
                }
                self.entry_map = Ghost(self.entry_map@.insert(key, st));
                self.id_map = Ghost(self.id_map@.insert(key, id));
                proof {
                    assert(record_keys(self.entries@) =~= record_keys(old_recs).push(key));
                    record_keys(old_recs).lemma_push_to_set_commute(key);
                    assert(!record_keys(old_recs).contains(key));
                    assert forall|a: int, b: int|
                        0 <= a < record_keys(self.entries@).len() && 0 <= b < record_keys(self.entries@).len() && a != b
                        implies record_keys(self.entries@)[a] != record_keys(self.entries@)[b] by {
                        if a == old_recs.len() {
                            assert(record_keys(old_recs)[b] == record_keys(self.entries@)[b]);
                        } else if b == old_recs.len() {
                            assert(record_keys(old_recs)[a] == record_keys(self.entries@)[a]);
                        }
                    }
                    assert(self.id_map@.dom() =~= self.entry_map@.dom());
                    assert forall|k: int| 0 <= k < self.entries@.len() implies self.entry_map@[key_of(
                        #[trigger] self.entries@[k])] == stored_of(self.entries@[k])
                        && self.id_map@[key_of(self.entries@[k])] == self.entries@[k].id by {
                        if k < old_recs.len() {
                            assert(self.entries@[k] == old_recs[k]);
                            assert(record_keys(old_recs)[k] != key);
                        }
                    }
                    assert forall|k: int, j: int| 0 <= k < j < self.entries@.len() implies self.entries@[k].id
                        != self.entries@[j].id by {
                        if j == old_recs.len() {
                            assert(old_recs[k].id != id);
                        } else {
                            assert(old_recs[k].id != old_recs[j].id);
                        }
                    }
                    assert forall|k: int| 0 <= k < self.entries@.len() implies #[trigger] self.entries@[k].id
                        < self.next_entry_id by {
                        if k < old_recs.len() {
                            assert(old_recs[k].id < old_next);
                        }
                    }
                    assert forall|k: int| 0 <= k < self.entries@.len() implies self.root_map@.contains_key(
                        #[trigger] self.entries@[k].root_id) by {
                        if k < old_recs.len() {
                            assert(self.entries@[k] == old_recs[k]);
                        }
                    }
                    assert forall|k: int| 0 <= k < self.entries@.len() implies (#[trigger] self.entries@[k]).name_chars@
                        == self.entries@[k].entry.normalized_name@ by {
                        if k < old_recs.len() {
                            assert(self.entries@[k] == old_recs[k]);
                        }
                    }
                    if old_next <= i64::MAX {
                        assert(self.entries@[old_recs.len() as int].id == self.next_entry_id - 1);
                    } else {
                        let w = choose|w: int| 0 <= w < old_recs.len() && #[trigger] old_recs[w].id == old_next - 1;
                        assert(self.entries@[w].id == self.next_entry_id - 1);
                    }
                }
            },
        }
    }

    fn upsert_batch(&mut self, root_id: i64, generation: i64, batch: &[IndexedEntry]) -> (result: Result<(), IndexError>)
        requires
            old(self).wf(),
        ensures
            final(self).wf(),
            upserted(old(self).model(), final(self).model(), root_id, generation, batch_view(batch@), result),
    {
        if batch.len() == 0 {
            return Ok(());
        }
        match self.find_root(root_id) {
            None => {
                return Err(IndexError::UnknownRoot);
            },
            Some(r) => {
                proof {
                    self.lemma_root_lookup(r as int);
                }
            },
        }
        proof {
            self.lemma_entry_count();
        }
        if self.entries.len() as u128 + batch.len() as u128 >= i64::MAX as u128 {
            return Err(IndexError::IdsExhausted);
        }
        let ghost bv = batch_view(batch@);
        let ghost start = self.model();
        let ghost start_count = self.entries@.len();
        let mut i: usize = 0;
        while i < batch.len()
            invariant
                self.wf(),
                0 <= i <= batch@.len(),
                bv == batch_view(batch@),
                start_count + bv.len() < i64::MAX,
                self.entries@.len() <= start_count + i,
                start.roots.contains_key(root_id),
                start.entry_ids.dom() == start.entries.dom(),
                self.model().roots == start.roots,
                self.next_root_id == start.next_root_id,
                self.model().entries == apply_batch(start.entries, root_id, generation, bv.take(i as int)),
                self.model().entry_ids.dom() == self.model().entries.dom(),
                self.model().entry_ids == assign_ids(start.entry_ids, start.next_entry_id, root_id, bv.take(i as int)).0,
                self.next_entry_id == assign_ids(start.entry_ids, start.next_entry_id, root_id, bv.take(i as int)).1,
            decreases batch.len() - i,
        {
            let ghost before = self.model();
            self.upsert_one(root_id, generation, &batch[i]);
            proof {
                assert(bv.take(i + 1).drop_last() =~= bv.take(i as int));
                assert(bv.take(i + 1).last() == batch@[i as int]@);
                assert(before.entry_ids.dom() == before.entries.dom());
            }
            i = i + 1;
        }
        assert(bv.take(batch@.len() as int) =~= bv);
        Ok(())
    }


    proof fn lemma_valid(&self)
        requires
            self.wf(),
        ensures
            index_valid(self.model()),
    {
        let v = self.model();
        let rs = self.roots@;
        let es = self.entries@;
        vstd::seq_lib::seq_to_set_is_finite(root_ids(rs));
        vstd::seq_lib::seq_to_set_is_finite(record_keys(es));
        assert forall|a: i64, b: i64|
            #[trigger] v.roots.contains_key(a) && #[trigger] v.roots.contains_key(b) && a != b
            implies v.roots[a].path != v.roots[b].path by {
            let i = choose|i: int| 0 <= i < rs.len() && root_ids(rs)[i] == a;
            let j = choose|j: int| 0 <= j < rs.len() && root_ids(rs)[j] == b;
            assert(rs[i].id == a && rs[j].id == b);
            if i < j {
                assert(rs[i].path@ != rs[j].path@);
            } else {
                assert(rs[j].path@ != rs[i].path@);
            }
        }
        assert forall|id: i64| #[trigger] v.roots.dom().contains(id) implies id < v.next_root_id by {
            let i = choose|i: int| 0 <= i < rs.len() && root_ids(rs)[i] == id;
            assert(rs[i].id == id);
        }
        if rs.len() > 0 {
            let w = choose|w: int| 0 <= w < rs.len() && #[trigger] rs[w].id == v.next_root_id - 1;
            self.lemma_root_lookup(w);
            assert(v.roots.dom().contains(rs[w].id));
        } else {
            assert forall|id: i64| !(#[trigger] v.roots.dom().contains(id)) by {
                if v.roots.dom().contains(id) {
                    let i = choose|i: int| 0 <= i < rs.len() && root_ids(rs)[i] == id;
                }
            }
        }
        assert forall|k: EntryKey| #[trigger] v.entries.contains_key(k) implies v.roots.contains_key(k.0)
            && v.entry_ids[k] < v.next_entry_id by {
            let i = choose|i: int| 0 <= i < es.len() && record_keys(es)[i] == k;
            assert(key_of(es[i]) == k);
            self.lemma_entry_lookup(i);
        }
        assert forall|a: EntryKey, b: EntryKey|
            #[trigger] v.entries.contains_key(a) && #[trigger] v.entries.contains_key(b) && a != b
            implies v.entry_ids[a] != v.entry_ids[b] by {
            let i = choose|i: int| 0 <= i < es.len() && record_keys(es)[i] == a;
            let j = choose|j: int| 0 <= j < es.len() && record_keys(es)[j] == b;
            self.lemma_entry_lookup(i);
            self.lemma_entry_lookup(j);
            assert(key_of(es[i]) == a && key_of(es[j]) == b);
            if i < j {
                assert(es[i].id != es[j].id);
            } else {
                assert(es[j].id != es[i].id);
            }
        }
        assert forall|k: EntryKey| #[trigger] v.entry_ids.contains_key(k) implies v.entry_ids[k] < v.next_entry_id by {
            assert(v.entries.contains_key(k));
        }
        if es.len() > 0 {
            let w = choose|w: int| 0 <= w < es.len() && #[trigger] es[w].id == v.next_entry_id - 1;
            self.lemma_entry_lookup(w);
            assert(v.entry_ids.contains_key(key_of(es[w])));
        } else {
            assert forall|k: EntryKey| !(#[trigger] v.entry_ids.contains_key(k)) by {
                if v.entry_ids.contains_key(k) {
                    let i = choose|i: int| 0 <= i < es.len() && record_keys(es)[i] == k;
                }
            }
        }
    }

    #[verifier::loop_isolation(false)]
    fn record_hit(rule: &Prune, rec: &EntryRecord) -> (hit: bool)
        ensures
            hit == prune_hits_rec(*rule, *rec),
    {
        match rule {
            Prune::Subtree { root_id, prefix } => {
                if rec.root_id != *root_id {
                    return false;
                }
                let path = rec.entry.relative_path.as_slice();
                let p = prefix.as_slice();
                if bytes_equal(path, p) {
                    return true;
                }
                if path.len() <= p.len() {
                    assert(!within_subtree(path@, p@));
                    return false;
                }
                let mut i: usize = 0;
                while i < p.len()
                    invariant
                        i <= p.len(),
                        p.len() < path.len(),
                        forall|k: int| 0 <= k < i ==> path@[k] == p@[k],
                    decreases p.len() - i,
                {
                    if path[i] != p[i] {
                        assert(path@.subrange(0, p@.len() as int)[i as int] != p@[i as int]);
                        return false;
                    }
                    i = i + 1;
                }
                assert(path@.subrange(0, p@.len() as int) =~= p@);
                path[p.len()] == 0x2fu8
            },
            Prune::Stale { root_id, generation } => rec.root_id == *root_id && rec.generation
                != *generation,
        }
    }

    proof fn lemma_hit_record(&self, rule: Prune, i: int)
        requires
            self.wf(),
            0 <= i < self.entries@.len(),
        ensures
            prune_hits(rule, self.model().entries, key_of(self.entries@[i])) == prune_hits_rec(
                rule,
                self.entries@[i],
            ),
    {
        self.lemma_entry_lookup(i);
    }

    fn prune(&mut self, rule: &Prune) -> (removed: u64)
        requires
            old(self).wf(),
        ensures
            final(self).wf(),
            final(self).model().roots == old(self).model().roots,
            final(self).next_root_id == old(self).next_root_id,
            pruned(old(self).model(), final(self).model(), prune_pred(*rule, old(self).model().entries), removed),
    {
        let ghost old_map = self.entry_map@;
        let ghost old_ids = self.id_map@;
        let ghost hit = prune_pred(*rule, old_map);
        proof {
            assert forall|k: EntryKey| #[trigger] hit(k) == prune_hits(*rule, old_map, k) by {}
        }
        let mut records: Vec<EntryRecord> = Vec::new();
        std::mem::swap(&mut records, &mut self.entries);
        let ghost recs = records@;
        proof {
            assert forall|i: int| 0 <= i < recs.len() implies #[trigger] hit(key_of(recs[i]))
                == prune_hits_rec(*rule, recs[i]) by {
                old(self).lemma_hit_record(*rule, i);
            }
        }
        let mut kept: Vec<EntryRecord> = Vec::new();
        let mut removed: u64 = 0;
        let ghost mut gone: Set<EntryKey> = Set::empty();
        let ghost mut origin: Seq<int> = Seq::empty();
        let n = records.len();
        let mut t: usize = 0;
        for rec in it: records.into_iter()
            invariant
                it.seq() == recs,
                n == recs.len(),
                t == it.index(),
                t <= n,
                forall|i: int| 0 <= i < recs.len() ==> #[trigger] hit(key_of(recs[i]))
                    == prune_hits_rec(*rule, recs[i]),
                origin.len() == kept@.len(),
                forall|j: int| 0 <= j < origin.len() ==> 0 <= #[trigger] origin[j] < t,
                forall|j1: int, j2: int| 0 <= j1 < j2 < origin.len() ==> origin[j1] < origin[j2],
                forall|j: int| 0 <= j < origin.len() ==> kept@[j] == recs[#[trigger] origin[j]],
                forall|j: int| 0 <= j < origin.len() ==> !hit(key_of(recs[#[trigger] origin[j]])),
                forall|i: int| 0 <= i < t && !hit(key_of(recs[i])) ==> exists|j: int| 0 <= j < origin.len() && #[trigger] origin[j] == i,
                gone.finite(),
                forall|k: EntryKey| gone.contains(k) <==> exists|i: int| 0 <= i < t && hit(key_of(recs[i])) && key_of(#[trigger] recs[i]) == k,
                removed == gone.len(),
                removed <= t,
                record_keys(recs).no_duplicates(),
        {
            let ghost i = t as int;
            let ghost old_origin = origin;
            assert(rec == recs[i]);
            if Self::record_hit(rule, &rec) {
                proof {
                    assert(!gone.contains(key_of(recs[i]))) by {
                        if gone.contains(key_of(recs[i])) {
                            let i2 = choose|i2: int| 0 <= i2 < i && hit(key_of(recs[i2])) && key_of(#[trigger] recs[i2]) == key_of(recs[i]);
                            assert(record_keys(recs)[i2] == record_keys(recs)[i]);
                        }
                    }
                    gone = gone.insert(key_of(recs[i]));
                }
                removed = removed + 1;
            } else {
                kept.push(rec);
                proof {
                    origin = origin.push(i);
                }
            }
            t = t + 1;
            proof {
                assert forall|k: EntryKey| gone.contains(k) <==> exists|i2: int| 0 <= i2 < t && hit(key_of(recs[i2])) && key_of(#[trigger] recs[i2]) == k by {
                    if gone.contains(k) && k != key_of(recs[i]) {
                        let i2 = choose|i2: int| 0 <= i2 < i && hit(key_of(recs[i2])) && key_of(#[trigger] recs[i2]) == k;
                    }
                }
                assert forall|i2: int| 0 <= i2 < t && !hit(key_of(recs[i2])) implies exists|j: int| 0 <= j < origin.len() && #[trigger] origin[j] == i2 by {
                    if i2 == i {
                        assert(origin[origin.len() - 1] == i2);
                    } else {
                        let j = choose|j: int| 0 <= j < old_origin.len() && #[trigger] old_origin[j] == i2;
                        assert(origin[j] == old_origin[j]);
                    }
                }
            }
        }
        self.paths_index = index_paths(&kept);
        self.entries = kept;
        self.entry_map = Ghost(old_map.filter_keys(keep_pred(hit)));
        self.id_map = Ghost(old_ids.filter_keys(keep_pred(hit)));
        proof {
            let ks = self.entries@;
            assert forall|a: int, b: int| 0 <= a < b < ks.len() implies ks[a].id != ks[b].id by {
                assert(origin[a] < origin[b]);
                assert(recs[origin[a]].id != recs[origin[b]].id);
            }
            assert forall|a: int, b: int|
                0 <= a < record_keys(ks).len() && 0 <= b < record_keys(ks).len() && a != b
                implies record_keys(ks)[a] != record_keys(ks)[b] by {
                assert(origin[a] != origin[b]);
                assert(record_keys(recs)[origin[a]] != record_keys(recs)[origin[b]]);
            }
            assert forall|k: EntryKey| self.entry_map@.dom().contains(k) <==> record_keys(ks).to_set().contains(k) by {
                if self.entry_map@.dom().contains(k) {
                    assert(record_keys(recs).to_set().contains(k));
                    let i = choose|i: int| 0 <= i < recs.len() && record_keys(recs)[i] == k;
                    assert(key_of(recs[i]) == k);
                    let j = choose|j: int| 0 <= j < origin.len() && #[trigger] origin[j] == i;
                    assert(record_keys(ks)[j] == k);
                }
                if record_keys(ks).to_set().contains(k) {
                    let j = choose|j: int| 0 <= j < ks.len() && record_keys(ks)[j] == k;
                    assert(key_of(recs[origin[j]]) == k);
                    assert(record_keys(recs)[origin[j]] == k);
                }
            }
            assert(self.entry_map@.dom() =~= record_keys(ks).to_set());
            assert(self.id_map@.dom() =~= self.entry_map@.dom());
            assert forall|j: int| 0 <= j < ks.len() implies self.entry_map@[key_of(#[trigger] ks[j])]
                == stored_of(ks[j]) && self.id_map@[key_of(ks[j])] == ks[j].id by {
                old(self).lemma_entry_lookup(origin[j]);
            }
            assert forall|j: int| 0 <= j < ks.len() implies #[trigger] ks[j].id < self.next_entry_id by {
                assert(ks[j] == recs[origin[j]]);
            }
            assert forall|j: int| 0 <= j < ks.len() implies self.root_map@.contains_key(#[trigger] ks[j].root_id) by {
                assert(ks[j] == recs[origin[j]]);
            }
            assert forall|j: int| 0 <= j < ks.len() implies (#[trigger] ks[j]).name_chars@ == ks[j].entry.normalized_name@ by {
                assert(ks[j] == recs[origin[j]]);
            }
            assert forall|k: EntryKey| gone.contains(k) <==> old_map.dom().filter(hit).contains(k) by {
                if gone.contains(k) {
                    let i = choose|i: int| 0 <= i < n && hit(key_of(recs[i])) && key_of(#[trigger] recs[i]) == k;
                    assert(record_keys(recs)[i] == k);
                    assert(record_keys(recs).to_set().contains(k));
                }
                if old_map.dom().filter(hit).contains(k) {
                    let i = choose|i: int| 0 <= i < recs.len() && record_keys(recs)[i] == k;
                    assert(key_of(recs[i]) == k);
                }
            }
            assert(gone =~= old_map.dom().filter(hit));
        }
        let mut next: i128 = 1;
        let mut j: usize = 0;
        while j < self.entries.len()
            invariant
                0 <= j <= self.entries@.len(),
                j == 0 ==> next == 1,
                forall|a: int| 0 <= a < j ==> #[trigger] self.entries@[a].id < next,
                j > 0 ==> exists|a: int| 0 <= a < j && #[trigger] self.entries@[a].id == next - 1,
            decreases self.entries@.len() - j,
        {
            let candidate = self.entries[j].id as i128 + 1;
            if j == 0 || candidate > next {
                next = candidate;
            }
            j = j + 1;
        }
        self.next_entry_id = next;
        proof {
            self.lemma_valid();
        }
        removed
    }

    fn root_path_of(&self, i: usize) -> (path: &String)
        requires
            self.wf(),
            i < self.entries@.len(),
        ensures
            path@ == self.model().roots[self.entries@[i as int].root_id].path,
    {
        proof {
            self.lemma_entry_lookup(i as int);
        }
        let root_id = self.entries[i].root_id;
        match self.find_root(root_id) {
            Some(r) => {
                proof {
                    self.lemma_root_lookup(r as int);
                }
                &self.roots[r].path
            },
            None => {
                proof {
                    assert(false);
                }
                &self.roots[0].path
            },
        }
    }

    fn full_path_of(&self, i: usize) -> (path: String)
        requires
            self.wf(),
            i < self.entries@.len(),
        ensures
            path@ == full_path(self.model(), key_of(self.entries@[i as int])),
    {
        proof {
            self.lemma_entry_lookup(i as int);
        }
        let root = self.root_path_of(i);
        join_path_string(root.as_str(), self.entries[i].entry.display_path.as_str())
    }

    fn result_for(&self, i: usize) -> (r: SearchResult)
        requires
            self.wf(),
            i < self.entries@.len(),
        ensures
            r@ == result_of(self.model(), key_of(self.entries@[i as int])),
    {
        proof {
            self.lemma_entry_lookup(i as int);
        }
        let rec = &self.entries[i];
        SearchResult {
            id: rec.id,
            path: self.full_path_of(i),
            name: rec.entry.display_name.clone(),
            kind: rec.entry.kind,
            size: rec.entry.size,
            modified_ns: rec.entry.mtime_ns,
        }
    }

    #[verifier::loop_isolation(false)]
    fn accepts(&self, filter: &Filter, i: usize) -> (r: bool)
        requires
            self.wf(),
            filter_wf(*filter),
            i < self.entries@.len(),
        ensures
            r == filter_accepts(*filter, self.model(), key_of(self.entries@[i as int])),
    {
        proof {
            self.lemma_entry_lookup(i as int);
        }
        let ghost key = key_of(self.entries@[i as int]);
        let name = &self.entries[i].name_chars;
        match filter {
            Filter::Name { term } => contains_chars(name, term),
            Filter::Query { names, globs, paths, match_path, query } => {
                let needs_path = *match_path || paths.len() > 0;
                let lower_path: Vec<char> = if needs_path {
                    let full = self.full_path_of(i);
                    let lowered = to_lowercase(full.as_str());
                    chars_of(lowered.as_str())
                } else {
                    Vec::new()
                };
                let ghost lp = lowercase(full_path(self.model(), key));
                let ghost nm = self.model().entries[key].data.normalized_name;
                let mut t: usize = 0;
                while t < names.len()
                    invariant
                        filter_wf(*filter),
                        t <= names@.len(),
                        name@ == nm,
                        needs_path ==> lower_path@ == lp,
                        needs_path == (*match_path || paths@.len() > 0),
                        forall|k: int| 0 <= k < t ==> term_matches(
                            #[trigger] query@.name_terms[k],
                            if query@.match_path { lp } else { nm },
                        ),
                    decreases names.len() - t,
                {
                    let target = if *match_path { &lower_path } else { name };
                    if !term_matches_exec(&names[t], globs[t], target) {
                        assert(!term_matches(query@.name_terms[t as int], if query@.match_path { lp } else { nm }));
                        return false;
                    }
                    t = t + 1;
                }
                let mut u: usize = 0;
                while u < paths.len()
                    invariant
                        filter_wf(*filter),
                        u <= paths@.len(),
                        needs_path ==> lower_path@ == lp,
                        needs_path == (*match_path || paths@.len() > 0),
                        forall|k: int| 0 <= k < u ==> is_substring(#[trigger] query@.path_terms[k], lp),
                    decreases paths.len() - u,
                {
                    if !contains_chars(&lower_path, &paths[u]) {
                        assert(!is_substring(query@.path_terms[u as int], lp));
                        return false;
                    }
                    u = u + 1;
                }
                true
            },
        }
    }

    fn collect(&self, filter: &Filter, limit: usize) -> (out: Vec<SearchResult>)
        requires
            self.wf(),
            filter_wf(*filter),
        ensures
            is_top_results(
                self.model(),
                |k: EntryKey| filter_accepts(*filter, self.model(), k),
                limit as nat,
                results_view(out@),
            ),
    {
        let ghost v = self.model();
        let ghost acc = |k: EntryKey| filter_accepts(*filter, v, k);
        let mut top = TopList::new(limit, Ghost(v));
        let mut idx: usize = 0;
        while idx < self.entries.len()
            invariant
                self.wf(),
                v == self.model(),
                filter_wf(*filter),
                acc == (|k: EntryKey| filter_accepts(*filter, v, k)),
                idx <= self.entries@.len(),
                top.inv(v),
                top.limit == limit,
                forall|k: EntryKey| top.seen@.contains(k) <==> exists|i: int| 0 <= i < idx && key_of(#[trigger] self.entries@[i]) == k && acc(k),
            decreases self.entries.len() - idx,
        {
            proof {
                self.lemma_entry_lookup(idx as int);
            }
            let ghost key = key_of(self.entries@[idx as int]);
            let ghost before = top.seen@;
            if self.accepts(filter, idx) {
                proof {
                    assert(!top.seen@.contains(key)) by {
                        if top.seen@.contains(key) {
                            let i = choose|i: int| 0 <= i < idx && key_of(#[trigger] self.entries@[i]) == key && acc(key);
                            assert(record_keys(self.entries@)[i] == record_keys(self.entries@)[idx as int]);
                        }
                    }
                }
                let name = chars_of(self.entries[idx].entry.display_name.as_str());
                if top.admits(Ghost(v), &name) {
                    let result = self.result_for(idx);
                    top.offer(Ghost(v), Ghost(key), result, name);
                } else {
                    top.pass(Ghost(v), Ghost(key), &name);
                }
            }
            idx = idx + 1;
            proof {
                assert forall|k: EntryKey| top.seen@.contains(k) <==> exists|i: int| 0 <= i < idx && key_of(#[trigger] self.entries@[i]) == k && acc(k) by {
                    if top.seen@.contains(k) && k != key {
                        assert(before.contains(k));
                    }
                    if exists|i: int| 0 <= i < idx && key_of(#[trigger] self.entries@[i]) == k && acc(k) {
                        let i = choose|i: int| 0 <= i < idx && key_of(#[trigger] self.entries@[i]) == k && acc(k);
                        if i < idx - 1 {
                            assert(before.contains(k));
                        }
                    }
                }
            }
        }
        let ghost ks = top.keys@;
        let ghost seen = top.seen@;
        let out = top.out;
        proof {
            assert forall|k: EntryKey| seen.contains(k) <==> v.entries.dom().filter(acc).contains(k) by {
                if v.entries.dom().filter(acc).contains(k) {
                    let i = choose|i: int| 0 <= i < self.entries@.len() && record_keys(self.entries@)[i] == k;
                    assert(key_of(self.entries@[i]) == k);
                }
                if seen.contains(k) {
                    let i = choose|i: int| 0 <= i < idx && key_of(#[trigger] self.entries@[i]) == k && acc(k);
                    self.lemma_entry_lookup(i);
                }
            }
            assert(seen =~= v.entries.dom().filter(acc));
            let rv = results_view(out@);
            assert forall|i: int| 0 <= i < ks.len() implies v.entries.contains_key(#[trigger] ks[i]) && acc(ks[i])
                && rv[i] == result_of(v, ks[i]) by {
                assert(rv[i] == out@[i]@);
                assert(seen.contains(ks[i]));
            }
            assert forall|i: int, j: int| 0 <= i < j < rv.len() implies name_le(rv[i].name, rv[j].name) by {
                assert(rv[i] == out@[i]@);
                assert(rv[j] == out@[j]@);
                assert(ks.map_values(|k: EntryKey| display_name_of(v, k))[i] == display_name_of(v, ks[i]));
                assert(ks.map_values(|k: EntryKey| display_name_of(v, k))[j] == display_name_of(v, ks[j]));
            }
            assert forall|k: EntryKey, i: int|
                v.entries.contains_key(k) && acc(k) && !ks.contains(k) && 0 <= i < rv.len()
                implies name_le(#[trigger] rv[i].name, #[trigger] display_name_of(v, k)) by {
                assert(rv[i] == out@[i]@);
                assert(seen.contains(k));
                assert(rv[i].name == display_name_of(v, ks[i]));
            }
            assert(top_witness(v, acc, limit as nat, rv, ks));
        }
        out
    }

    fn count_entries(&self, root_id: i64) -> (n: u64)
        requires
            self.wf(),
        ensures
            n == entry_count(self.model(), root_id),
    {
        let ghost v = self.model();
        let ghost mut counted: Set<EntryKey> = Set::empty();
        let mut n: u64 = 0;
        let mut i: usize = 0;
        while i < self.entries.len()
            invariant
                self.wf(),
                v == self.model(),
                i <= self.entries@.len(),
                n <= i,
                counted.finite(),
                counted.len() == n,
                forall|k: EntryKey| counted.contains(k) <==> exists|j: int| 0 <= j < i && key_of(#[trigger] self.entries@[j]) == k && k.0 == root_id,
            decreases self.entries.len() - i,
        {
            let ghost key = key_of(self.entries@[i as int]);
            let ghost before = counted;
            if self.entries[i].root_id == root_id {
                proof {
                    assert(!counted.contains(key)) by {
                        if counted.contains(key) {
                            let j = choose|j: int| 0 <= j < i && key_of(#[trigger] self.entries@[j]) == key && key.0 == root_id;
                            assert(record_keys(self.entries@)[j] == record_keys(self.entries@)[i as int]);
                        }
                    }
                    counted = counted.insert(key);
                }
                n = n + 1;
            }
            i = i + 1;
            proof {
                assert forall|k: EntryKey| counted.contains(k) <==> exists|j: int| 0 <= j < i && key_of(#[trigger] self.entries@[j]) == k && k.0 == root_id by {
                    if counted.contains(k) && k != key {
                        assert(before.contains(k));
                    }
                    if exists|j: int| 0 <= j < i && key_of(#[trigger] self.entries@[j]) == k && k.0 == root_id {
                        let j = choose|j: int| 0 <= j < i && key_of(#[trigger] self.entries@[j]) == k && k.0 == root_id;
                        if j < i - 1 {
                            assert(before.contains(k));
                        }
                    }
                }
            }
        }
        proof {
            assert forall|k: EntryKey| counted.contains(k) <==> v.entries.dom().filter(below_root(root_id)).contains(k) by {
                if v.entries.dom().filter(below_root(root_id)).contains(k) {
                    let j = choose|j: int| 0 <= j < self.entries@.len() && record_keys(self.entries@)[j] == k;
                    assert(key_of(self.entries@[j]) == k);
                }
                if counted.contains(k) {
                    let j = choose|j: int| 0 <= j < i && key_of(#[trigger] self.entries@[j]) == k && k.0 == root_id;
                    self.lemma_entry_lookup(j);
                }
            }
            assert(counted =~= v.entries.dom().filter(below_root(root_id)));
        }
        n
    }

    fn status_for(&self, r: usize) -> (st: RootStatus)
        requires
            self.wf(),
            r < self.roots@.len(),
        ensures
            st@ == status_of(self.model(), self.roots@[r as int].id),
    {
        proof {
            self.lemma_root_lookup(r as int);
        }
        let row = &self.roots[r];
        RootStatus {
            id: row.id,
            path: row.path.clone(),
            device_id: row.device_id,
            entry_count: self.count_entries(row.id),
            state: String::from_str(row.state.label()),
            last_scan_ms: row.last_scan_ms,
            last_scan_duration_ms: row.last_scan_duration_ms,
            error_count: row.error_count,
        }
    }

    fn statuses(&self) -> (out: Vec<RootStatus>)
        requires
            self.wf(),
        ensures
            is_status_listing(self.model(), statuses_view(out@)),
    {
        let ghost v = self.model();
        let mut out: Vec<RootStatus> = Vec::new();
        let mut paths: Vec<Vec<char>> = Vec::new();
        let ghost mut ids: Seq<i64> = Seq::empty();
        let mut r: usize = 0;
        while r < self.roots.len()
            invariant
                self.wf(),
                v == self.model(),
                r <= self.roots@.len(),
                out@.len() == ids.len(),
                paths@.len() == ids.len(),
                ids.len() == r,
                ids.no_duplicates(),
                forall|id: i64| ids.contains(id) <==> exists|j: int| 0 <= j < r && (#[trigger] self.roots@[j]).id == id,
                forall|i: int| 0 <= i < ids.len() ==> out@[i]@ == status_of(v, #[trigger] ids[i]),
                forall|i: int| 0 <= i < ids.len() ==> (#[trigger] paths@[i])@ == v.roots[ids[i]].path,
                forall|i: int| 0 <= i < ids.len() ==> v.roots.contains_key(#[trigger] ids[i]),
                sorted_paths(ids.map_values(|id: i64| v.roots[id].path)),
            decreases self.roots.len() - r,
        {
            proof {
                self.lemma_root_lookup(r as int);
            }
            let ghost id = self.roots@[r as int].id;
            let ghost pv = |x: i64| v.roots[x].path;
            let ghost old_ids = ids;
            let ghost old_paths = ids.map_values(pv);
            let st = self.status_for(r);
            let path = chars_of(self.roots[r].path.as_str());
            proof {
                assert forall|i: int| 0 <= i < old_ids.len() implies old_paths[i] != path@ by {
                    let j = choose|j: int| 0 <= j < r && (#[trigger] self.roots@[j]).id == old_ids[i];
                    assert(old_ids.contains(old_ids[i]));
                    self.lemma_root_lookup(j);
                    assert(self.roots@[j].path@ != self.roots@[r as int].path@);
                }
                assert(!old_ids.contains(id)) by {
                    if old_ids.contains(id) {
                        let j = choose|j: int| 0 <= j < r && (#[trigger] self.roots@[j]).id == id;
                        assert(self.roots@[j].id != self.roots@[r as int].id);
                    }
                }
            }
            let mut pos: usize = 0;
            while pos < paths.len() && lex_le_chars(&paths[pos], &path)
                invariant
                    pos <= paths@.len(),
                    paths@.len() == old_ids.len(),
                    pv == (|x: i64| v.roots[x].path),
                    old_paths == old_ids.map_values(pv),
                    forall|i: int| 0 <= i < old_ids.len() ==> (#[trigger] paths@[i])@ == v.roots[old_ids[i]].path,
                    forall|i: int| 0 <= i < old_ids.len() ==> old_paths[i] != path@,
                    forall|i: int| 0 <= i < pos ==> lex_lt(old_paths[i], path@),
                decreases paths.len() - pos,
            {
                assert(paths@[pos as int]@ == old_paths[pos as int]);
                pos = pos + 1;
            }
            proof {
                if pos < paths@.len() {
                    assert(paths@[pos as int]@ == old_paths[pos as int]);
                }
                lemma_sorted_path_insert(old_paths, pos as int, path@);
            }
            out.insert(pos, st);
            paths.insert(pos, path);
            proof {
                ids = old_ids.insert(pos as int, id);
                old_ids.insert_ensures(pos as int, id);
                assert(ids.map_values(pv) =~= old_paths.insert(pos as int, pv(id)));
                assert forall|a: int, b: int| 0 <= a < ids.len() && 0 <= b < ids.len() && a != b implies ids[a] != ids[b] by {
                    if a != pos && b != pos {
                        let oa = if a < pos { a } else { a - 1 };
                        let ob = if b < pos { b } else { b - 1 };
                        assert(old_ids[oa] != old_ids[ob]);
                    } else if a == pos {
                        let ob = if b < pos { b } else { b - 1 };
                        assert(old_ids.contains(old_ids[ob]));
                    } else {
                        let oa = if a < pos { a } else { a - 1 };
                        assert(old_ids.contains(old_ids[oa]));
                    }
                }
                assert forall|i: int| 0 <= i < ids.len() implies out@[i]@ == status_of(v, #[trigger] ids[i])
                    && (#[trigger] paths@[i])@ == v.roots[ids[i]].path && v.roots.contains_key(ids[i]) by {
                    if i < pos {
                        assert(ids[i] == old_ids[i]);
                    } else if i > pos {
                        assert(ids[i] == old_ids[i - 1]);
                    }
                }
            }
            r = r + 1;
            proof {
                assert forall|x: i64| ids.contains(x) <==> exists|j: int| 0 <= j < r && (#[trigger] self.roots@[j]).id == x by {
                    if ids.contains(x) {
                        let i = choose|i: int| 0 <= i < ids.len() && ids[i] == x;
                        if i != pos {
                            let oi = if i < pos { i } else { i - 1 };
                            assert(old_ids[oi] == x);
                            assert(old_ids.contains(x));
                        } else {
                            assert(self.roots@[r - 1].id == x);
                        }
                    }
                    if exists|j: int| 0 <= j < r && (#[trigger] self.roots@[j]).id == x {
                        let j = choose|j: int| 0 <= j < r && (#[trigger] self.roots@[j]).id == x;
                        if j == r - 1 {
                            assert(ids[pos as int] == x);
                        } else {
                            assert(old_ids.contains(x));
                            let i = choose|i: int| 0 <= i < old_ids.len() && old_ids[i] == x;
                            if i < pos {
                                assert(ids[i] == x);
                            } else {
                                assert(ids[i + 1] == x);
                            }
                        }
                    }
                }
            }
        }
        proof {
            let sv = statuses_view(out@);
            assert forall|x: i64| ids.to_set().contains(x) <==> v.roots.dom().contains(x) by {
                if v.roots.dom().contains(x) {
                    let j = choose|j: int| 0 <= j < self.roots@.len() && root_ids(self.roots@)[j] == x;
                    assert(self.roots@[j].id == x);
                }
                if ids.contains(x) {
                    let j = choose|j: int| 0 <= j < r && (#[trigger] self.roots@[j]).id == x;
                    self.lemma_root_lookup(j);
                }
            }
            assert(ids.to_set() =~= v.roots.dom());
            assert forall|i: int| 0 <= i < ids.len() implies sv[i] == status_of(v, #[trigger] ids[i]) by {
                assert(sv[i] == out@[i]@);
            }
            assert forall|i: int, j: int| 0 <= i < j < sv.len() implies lex_lt(sv[i].path, sv[j].path) by {
                assert(sv[i] == out@[i]@);
                assert(sv[j] == out@[j]@);
                assert(ids.map_values(|id: i64| v.roots[id].path)[i] == v.roots[ids[i]].path);
                assert(ids.map_values(|id: i64| v.roots[id].path)[j] == v.roots[ids[j]].path);
            }
        }
        out
    }

    fn delete_subtree(&mut self, root_id: i64, prefix: &[u8]) -> (removed: u64)
        requires
            old(self).wf(),
        ensures
            final(self).wf(),
            final(self).model().roots == old(self).model().roots,
            final(self).next_root_id == old(self).next_root_id,
            pruned(old(self).model(), final(self).model(), subtree_pred(root_id, prefix@), removed),
    {
        let rule = Prune::Subtree { root_id, prefix: copy_bytes(prefix) };
        self.prune(&rule)
    }

    fn finish_scan(
        &mut self,
        root_id: i64,
        generation: i64,
        completed_at_ms: i64,
        elapsed_ms: u64,
        errors: u64,
    ) -> (removed: u64)
        requires
            old(self).wf(),
        ensures
            final(self).wf(),
            final(self).model().roots == scan_finished(
                old(self).model().roots,
                root_id,
                completed_at_ms,
                elapsed_ms,
                errors,
            ),
            final(self).next_root_id == old(self).next_root_id,
            errors == 0 ==> pruned(
                old(self).model(),
                final(self).model(),
                stale_pred(old(self).model().entries, root_id, generation),
                removed,
            ),
            errors != 0 ==> removed == 0 && final(self).model().entries == old(self).model().entries
                && final(self).model().entry_ids == old(self).model().entry_ids
                && final(self).next_entry_id == old(self).next_entry_id,
    {
        let removed = if errors == 0 {
            let rule = Prune::Stale { root_id, generation };
            self.prune(&rule)
        } else {
            0
        };
        match self.find_root(root_id) {
            Some(i) => {
                proof {
                    self.lemma_root_lookup(i as int);
                }
                let old_row = &self.roots[i];
                let row = RootRow {
                    id: old_row.id,
                    path: old_row.path.clone(),
                    device_id: old_row.device_id,
                    state: if errors == 0 {
                        RootState::Live
                    } else {
                        RootState::Degraded
                    },
                    last_scan_ms: Some(completed_at_ms),
                    last_scan_duration_ms: Some(elapsed_ms),
                    error_count: errors,
                };
                self.set_root(i, row);
            },
            None => {},
        }
        removed
    }
}

impl Catalog {
    fn push_root(&mut self, row: RootRow)
        requires
            old(self).wf(),
            !old(self).model().roots.contains_key(row.id),
            forall|k: int| 0 <= k < old(self).roots@.len() ==> old(self).roots@[k].path@ != row.path@,
        ensures
            final(self).wf(),
            final(self).roots@ == old(self).roots@.push(row),
            final(self).entries@ == old(self).entries@,
            final(self).model().roots == old(self).model().roots.insert(row.id, row.root_view()),
            final(self).model().entries == old(self).model().entries,
            final(self).model().entry_ids == old(self).model().entry_ids,
    {
        let ghost old_roots = self.roots@;
        let ghost id = row.id;
        let ghost rv = row.root_view();
        proof {
            assert forall|k: int| 0 <= k < old_roots.len() implies old_roots[k].id != id by {
                if old_roots[k].id == id {
                    assert(root_ids(old_roots)[k] == id);
                }
            }
        }
        if self.roots.len() == 0 || self.next_root_id <= row.id as i128 {
            self.next_root_id = row.id as i128 + 1;
        }
        let ghost old_next = old(self).next_root_id;
        self.roots.push(row);
        self.root_map = Ghost(self.root_map@.insert(id, rv));
        proof {
            assert(root_ids(self.roots@) =~= root_ids(old_roots).push(id));
            root_ids(old_roots).lemma_push_to_set_commute(id);
            assert forall|k: int| 0 <= k < self.roots@.len() implies self.root_map@[
                #[trigger] self.roots@[k].id] == self.roots@[k].root_view() by {
                if k < old_roots.len() {
                    assert(self.roots@[k] == old_roots[k]);
                }
            }
            assert forall|k: int, j: int| 0 <= k < j < self.roots@.len() implies self.roots@[k].id
                != self.roots@[j].id && self.roots@[k].path@ != self.roots@[j].path@ by {
                if j < old_roots.len() {
                    assert(old_roots[k].id != old_roots[j].id);
                }
            }
            assert forall|k: int| 0 <= k < self.roots@.len() implies #[trigger] self.roots@[k].id
                < self.next_root_id by {
                if k < old_roots.len() {
                    assert(old_roots[k].id < old_next);
                }
            }
            if old_roots.len() == 0 || old_next <= id {
                assert(self.roots@[old_roots.len() as int].id == self.next_root_id - 1);
            } else {
                let w = choose|w: int| 0 <= w < old_roots.len() && #[trigger] old_roots[w].id == old_next - 1;
                assert(self.roots@[w].id == self.next_root_id - 1);
            }
            assert forall|k: int| 0 <= k < self.entries@.len() implies self.root_map@.contains_key(
                #[trigger] self.entries@[k].root_id) by {
                assert(old(self).root_map@.contains_key(self.entries@[k].root_id));
            }
        }
    }

    fn push_record(&mut self, rec: EntryRecord)
        requires
            old(self).wf(),
            old(self).model().roots.contains_key(rec.root_id),
            !old(self).model().entries.contains_key(key_of(rec)),
            forall|k: int| 0 <= k < old(self).entries@.len() ==> old(self).entries@[k].id != rec.id,
            rec.name_chars@ == rec.entry.normalized_name@,
        ensures
            final(self).wf(),
            final(self).roots@ == old(self).roots@,
            final(self).entries@ == old(self).entries@.push(rec),
            final(self).model().roots == old(self).model().roots,
            final(self).model().entries == old(self).model().entries.insert(key_of(rec), stored_of(rec)),
            final(self).model().entry_ids == old(self).model().entry_ids.insert(key_of(rec), rec.id),
    {
        let ghost old_recs = self.entries@;
        let ghost key = key_of(rec);
        let ghost st = stored_of(rec);
        let ghost id = rec.id;
        let ghost old_next = self.next_entry_id;
        if self.entries.len() == 0 || self.next_entry_id <= rec.id as i128 {
            self.next_entry_id = rec.id as i128 + 1;
        }
        self.paths_index.add(Ghost(record_paths(old_recs)), self.entries.len(), rec.entry.relative_path.as_slice());
        let ghost path = rec.entry.relative_path@;
        self.entries.push(rec);
        assert(record_paths(self.entries@) =~= record_paths(old_recs).push(path));
        self.entry_map = Ghost(self.entry_map@.insert(key, st));
        self.id_map = Ghost(self.id_map@.insert(key, id));
        proof {
            assert(record_keys(self.entries@) =~= record_keys(old_recs).push(key));
            record_keys(old_recs).lemma_push_to_set_commute(key);
            assert(!record_keys(old_recs).contains(key));
            assert forall|a: int, b: int|
                0 <= a < record_keys(self.entries@).len() && 0 <= b < record_keys(self.entries@).len()
                    && a != b implies record_keys(self.entries@)[a] != record_keys(self.entries@)[b] by {
                if a == old_recs.len() {
                    assert(record_keys(old_recs)[b] == record_keys(self.entries@)[b]);
                } else if b == old_recs.len() {
                    assert(record_keys(old_recs)[a] == record_keys(self.entries@)[a]);
                }
            }
            assert(self.id_map@.dom() =~= self.entry_map@.dom());
            assert forall|k: int| 0 <= k < self.entries@.len() implies self.entry_map@[key_of(
                #[trigger] self.entries@[k])] == stored_of(self.entries@[k]) && self.id_map@[key_of(
                self.entries@[k])] == self.entries@[k].id by {
                if k < old_recs.len() {
                    assert(self.entries@[k] == old_recs[k]);
                    assert(record_keys(old_recs)[k] != key);
                }
            }
            assert forall|k: int, j: int| 0 <= k < j < self.entries@.len() implies self.entries@[k].id
                != self.entries@[j].id by {
                if j < old_recs.len() {
                    assert(old_recs[k].id != old_recs[j].id);
                }
            }
            assert forall|k: int| 0 <= k < self.entries@.len() implies #[trigger] self.entries@[k].id
                < self.next_entry_id by {
                if k < old_recs.len() {
                    assert(old_recs[k].id < old_next);
                }
            }
            assert forall|k: int| 0 <= k < self.entries@.len() implies self.root_map@.contains_key(
                #[trigger] self.entries@[k].root_id) by {
                if k < old_recs.len() {
                    assert(self.entries@[k] == old_recs[k]);
                }
            }
            assert forall|k: int| 0 <= k < self.entries@.len() implies (#[trigger] self.entries@[k]).name_chars@
                == self.entries@[k].entry.normalized_name@ by {
                if k < old_recs.len() {
                    assert(self.entries@[k] == old_recs[k]);
                }
            }
            if old_recs.len() == 0 || old_next <= id {
                assert(self.entries@[old_recs.len() as int].id == self.next_entry_id - 1);
            } else {
                let w = choose|w: int|
                    0 <= w < old_recs.len() && #[trigger] old_recs[w].id == self.next_entry_id - 1;
                assert(self.entries@[w].id == self.next_entry_id - 1);
            }
        }
    }
}

impl Catalog {
    fn snapshot(&self) -> (rows: (Vec<RootRow>, Vec<EntryRow>))
        requires
            self.wf(),
        ensures
            rows_consistent(rows.0@, rows.1@),
            rows_describe(self.model(), rows.0@, rows.1@),
    {
        let mut roots: Vec<RootRow> = Vec::new();
        let mut i: usize = 0;
        while i < self.roots.len()
            invariant
                i <= self.roots@.len(),
                roots@.len() == i,
                forall|k: int| 0 <= k < i ==> (#[trigger] roots@[k]).id == self.roots@[k].id
                    && roots@[k].root_view() == self.roots@[k].root_view(),
            decreases self.roots.len() - i,
        {
            let r = &self.roots[i];
            roots.push(RootRow {
                id: r.id,
                path: r.path.clone(),
                device_id: r.device_id,
                state: r.state,
                last_scan_ms: r.last_scan_ms,
                last_scan_duration_ms: r.last_scan_duration_ms,
                error_count: r.error_count,
            });
            i = i + 1;
        }
        let mut entries: Vec<EntryRow> = Vec::new();
        let mut j: usize = 0;
        while j < self.entries.len()
            invariant
                j <= self.entries@.len(),
                entries@.len() == j,
                forall|k: int| 0 <= k < j ==> (#[trigger] entries@[k]).id == self.entries@[k].id
                    && entries@[k].root_id == self.entries@[k].root_id
                    && entry_row_key(entries@[k]) == key_of(self.entries@[k])
                    && entry_row_stored(entries@[k]) == stored_of(self.entries@[k]),
            decreases self.entries.len() - j,
        {
            let rec = &self.entries[j];
            entries.push(EntryRow {
                id: rec.id,
                root_id: rec.root_id,
                entry: rec.entry.duplicate(),
                generation: rec.generation,
            });
            j = j + 1;
        }
        proof {
            let rs = roots@;
            let es = entries@;
            assert(rs.map_values(|r: RootRow| r.id) =~= root_ids(self.roots@));
            assert(es.map_values(|r: EntryRow| entry_row_key(r)) =~= record_keys(self.entries@));
            assert forall|a: int, b: int| 0 <= a < b < rs.len() implies rs[a].id != rs[b].id
                && rs[a].path@ != rs[b].path@ by {
                assert(rs[a].root_view() == self.roots@[a].root_view());
                assert(rs[b].root_view() == self.roots@[b].root_view());
            }
            assert forall|a: int, b: int| 0 <= a < b < es.len() implies es[a].id != es[b].id
                && entry_row_key(es[a]) != entry_row_key(es[b]) by {
                assert(record_keys(self.entries@)[a] == key_of(self.entries@[a]));
                assert(record_keys(self.entries@)[b] == key_of(self.entries@[b]));
            }
            assert forall|k: int| 0 <= k < es.len() implies root_listed(rs, #[trigger] es[k].root_id) by {
                let id = es[k].root_id;
                assert(self.root_map@.contains_key(self.entries@[k].root_id));
                let r = choose|r: int| 0 <= r < self.roots@.len() && root_ids(self.roots@)[r] == id;
                assert(rs[r].id == id);
            }
            assert forall|k: int| 0 <= k < rs.len() implies self.model().roots[#[trigger] rs[k].id]
                == rs[k].root_view() by {
                assert(self.root_map@[self.roots@[k].id] == self.roots@[k].root_view());
            }
            assert forall|k: int| 0 <= k < es.len() implies self.model().entries[entry_row_key(
                #[trigger] es[k])] == entry_row_stored(es[k]) && self.model().entry_ids[entry_row_key(
                es[k])] == es[k].id by {
                assert(self.entry_map@[key_of(self.entries@[k])] == stored_of(self.entries@[k]));
            }
        }
        (roots, entries)
    }

    fn from_rows(roots: &[RootRow], entries: &[EntryRow]) -> (result: Option<Catalog>)
        ensures
            match result {
                Some(c) => c.wf() && rows_consistent(roots@, entries@) && rows_describe(
                    c.model(),
                    roots@,
                    entries@,
                ),
                None => !rows_consistent(roots@, entries@),
            },
    {
        broadcast use vstd::std_specs::hash::group_hash_axioms;

        let mut c = Catalog::empty();
        let mut i: usize = 0;
        while i < roots.len()
            invariant
                c.wf(),
                i <= roots@.len(),
                c.roots@.len() == i,
                c.entries@.len() == 0,
                forall|k: int| 0 <= k < i ==> (#[trigger] c.roots@[k]).id == roots@[k].id
                    && c.roots@[k].root_view() == roots@[k].root_view(),
            decreases roots.len() - i,
        {
            let row = &roots[i];
            match c.find_root(row.id) {
                Some(k) => {
                    proof {
                        if rows_consistent(roots@, entries@) {
                            assert(roots@[k as int].id != roots@[i as int].id);
                        }
                    }
                    return None;
                },
                None => {},
            }
            match c.find_root_path(&row.path) {
                Some(k) => {
                    proof {
                        assert(c.roots@[k as int].root_view() == roots@[k as int].root_view());
                        if rows_consistent(roots@, entries@) {
                            assert(roots@[k as int].path@ != roots@[i as int].path@);
                        }
                    }
                    return None;
                },
                None => {},
            }
            c.push_root(
                RootRow {
                    id: row.id,
                    path: row.path.clone(),
                    device_id: row.device_id,
                    state: row.state,
                    last_scan_ms: row.last_scan_ms,
                    last_scan_duration_ms: row.last_scan_duration_ms,
                    error_count: row.error_count,
                },
            );
            i = i + 1;
        }
        let ghost root_model = c.model().roots;
        let ghost root_rows = c.roots@;
        let mut ids: HashSet<i64> = HashSet::new();
        let mut j: usize = 0;
        while j < entries.len()
            invariant
                c.wf(),
                forall|k: int| 0 <= k < j ==> ids@.contains(#[trigger] entries@[k].id),
                forall|x: i64| ids@.contains(x) ==> exists|k: int| 0 <= k < j && #[trigger] entries@[k].id == x,
                j <= entries@.len(),
                c.entries@.len() == j,
                c.roots@ == root_rows,
                c.model().roots == root_model,
                root_rows.len() == roots@.len(),
                forall|k: int| 0 <= k < roots@.len() ==> (#[trigger] root_rows[k]).id == roots@[k].id
                    && root_rows[k].root_view() == roots@[k].root_view(),
                forall|k: int| 0 <= k < j ==> (#[trigger] c.entries@[k]).id == entries@[k].id
                    && c.entries@[k].root_id == entries@[k].root_id
                    && key_of(c.entries@[k]) == entry_row_key(entries@[k])
                    && stored_of(c.entries@[k]) == entry_row_stored(entries@[k]),
            decreases entries.len() - j,
        {
            let row = &entries[j];
            let ghost old_ids = ids@;
            match c.find_root(row.root_id) {
                Some(r) => {
                    proof {
                        c.lemma_root_lookup(r as int);
                    }
                },
                None => {
                    proof {
                        if rows_consistent(roots@, entries@) {
                            assert(root_listed(roots@, entries@[j as int].root_id));
                            let r = choose|r: int| 0 <= r < roots@.len() && #[trigger] roots@[r].id
                                == row.root_id;
                            assert(root_rows[r].id == row.root_id);
                            assert(root_ids(root_rows)[r] == row.root_id);
                        }
                    }
                    return None;
                },
            }
            match c.find_entry(row.root_id, row.entry.relative_path.as_slice()) {
                Some(k) => {
                    proof {
                        if rows_consistent(roots@, entries@) {
                            assert(entry_row_key(entries@[k as int]) != entry_row_key(entries@[j as int]));
                        }
                    }
                    return None;
                },
                None => {},
            }
            if !ids.insert(row.id) {
                proof {
                    let k = choose|k: int| 0 <= k < j && #[trigger] entries@[k].id == row.id;
                    if rows_consistent(roots@, entries@) {
                        assert(entries@[k].id != entries@[j as int].id);
                    }
                }
                return None;
            }
            proof {
                assert forall|k: int| 0 <= k < c.entries@.len() implies c.entries@[k].id != row.id by {
                    if c.entries@[k].id == row.id {
                        assert(entries@[k].id == row.id);
                        assert(old_ids.contains(entries@[k].id));
                    }
                }
            }
            let name_chars = chars_of(row.entry.normalized_name.as_str());
            c.push_record(
                EntryRecord {
                    id: row.id,
                    root_id: row.root_id,
                    entry: row.entry.duplicate(),
                    generation: row.generation,
                    name_chars,
                },
            );
            j = j + 1;
        }
        proof {
            let rs = roots@;
            let es = entries@;
            assert(rs.map_values(|r: RootRow| r.id) =~= root_ids(c.roots@));
            assert(es.map_values(|r: EntryRow| entry_row_key(r)) =~= record_keys(c.entries@));
            assert forall|a: int, b: int| 0 <= a < b < rs.len() implies rs[a].id != rs[b].id
                && rs[a].path@ != rs[b].path@ by {
                assert(root_rows[a].root_view() == rs[a].root_view());
                assert(root_rows[b].root_view() == rs[b].root_view());
            }
            assert forall|a: int, b: int| 0 <= a < b < es.len() implies es[a].id != es[b].id
                && entry_row_key(es[a]) != entry_row_key(es[b]) by {
                assert(record_keys(c.entries@)[a] == key_of(c.entries@[a]));
                assert(record_keys(c.entries@)[b] == key_of(c.entries@[b]));
            }
            assert forall|k: int| 0 <= k < es.len() implies root_listed(rs, #[trigger] es[k].root_id) by {
                let id = es[k].root_id;
                assert(c.root_map@.contains_key(c.entries@[k].root_id));
                let r = choose|r: int| 0 <= r < c.roots@.len() && root_ids(c.roots@)[r] == id;
                assert(rs[r].id == id);
            }
            assert forall|k: int| 0 <= k < rs.len() implies c.model().roots[#[trigger] rs[k].id]
                == rs[k].root_view() by {
                assert(c.root_map@[c.roots@[k].id] == c.roots@[k].root_view());
            }
            assert forall|k: int| 0 <= k < es.len() implies c.model().entries[entry_row_key(
                #[trigger] es[k])] == entry_row_stored(es[k]) && c.model().entry_ids[entry_row_key(
                es[k])] == es[k].id by {
                assert(c.entry_map@[key_of(c.entries@[k])] == stored_of(c.entries@[k]));
            }
        }
        Some(c)
    }
}

/// A filename index: the registered roots and the entries found below them.
pub struct Index {
    path: String,
    catalog: Catalog,
}

impl View for Index {
    type V = IndexView;

    closed spec fn view(&self) -> IndexView {
        self.catalog.model()
    }
}

impl Index {
    #[verifier::type_invariant]
    spec fn well_formed(self) -> bool {
        self.catalog.wf()
    }

    /// The location the index is persisted at.
    pub closed spec fn location(&self) -> Seq<char> {
        self.path@
    }

    /// An empty index to be persisted at `path`.
    pub fn new(path: String) -> (index: Self)
        ensures
            index@.roots.is_empty(),
            index@.entries.is_empty(),
            index@.entry_ids.is_empty(),
            index@.next_root_id == 1,
            index@.next_entry_id == 1,
            index.location() == path@,
            index_valid(index@),
    {
        let index = Index { path, catalog: Catalog::empty() };
        proof {
            index.catalog.lemma_valid();
        }
        index
    }

    /// The location the index is persisted at.
    pub fn path(&self) -> (p: &str)
        ensures
            p@ == self.location(),
    {
        self.path.as_str()
    }

    /// Registers a root directory (or refreshes the device id of one already
    /// registered) and returns its id.
    pub fn register_root(&mut self, path: &str, device_id: u64) -> (result: Result<i64, IndexError>)
        ensures
            registered(old(self)@, final(self)@, path@, device_id, result),
            final(self).location() == old(self).location(),
            index_valid(final(self)@),
    {
        proof {
            use_type_invariant(&*self);
        }
        let mut catalog = Catalog::empty();
        std::mem::swap(&mut catalog, &mut self.catalog);
        let result = catalog.register_root(String::from_str(path), device_id);
        proof {
            catalog.lemma_valid();
        }
        self.catalog = catalog;
        result
    }

    /// Marks a root as being scanned and clears its error count.
    pub fn begin_scan(&mut self, root_id: i64)
        ensures
            final(self)@ == (IndexView { roots: scan_begun(old(self)@.roots, root_id), ..old(self)@ }),
            final(self).location() == old(self).location(),
            index_valid(final(self)@),
    {
        proof {
            use_type_invariant(&*self);
        }
        let mut catalog = Catalog::empty();
        std::mem::swap(&mut catalog, &mut self.catalog);
        catalog.begin_scan(root_id);
        proof {
            catalog.lemma_valid();
        }
        self.catalog = catalog;
    }

    /// Stores a batch of entries below a root, tagging them with the scan
    /// generation; an entry with a relative path already stored replaces it.
    pub fn upsert_batch(&mut self, root_id: i64, generation: i64, entries: &[IndexedEntry]) -> (result: Result<(), IndexError>)
        ensures
            upserted(old(self)@, final(self)@, root_id, generation, batch_view(entries@), result),
            final(self).location() == old(self).location(),
            index_valid(final(self)@),
    {
        proof {
            use_type_invariant(&*self);
        }
        let mut catalog = Catalog::empty();
        std::mem::swap(&mut catalog, &mut self.catalog);
        let result = catalog.upsert_batch(root_id, generation, entries);
        proof {
            catalog.lemma_valid();
        }
        self.catalog = catalog;
        result
    }

    /// Removes the entry at `relative_path` below a root together with
    /// everything beneath it; returns how many entries were removed.
    pub fn delete_subtree(&mut self, root_id: i64, relative_path: &[u8]) -> (removed: u64)
        ensures
            final(self)@.roots == old(self)@.roots,
            final(self)@.next_root_id == old(self)@.next_root_id,
            pruned(old(self)@, final(self)@, subtree_pred(root_id, relative_path@), removed),
            final(self).location() == old(self).location(),
            index_valid(final(self)@),
    {
        proof {
            use_type_invariant(&*self);
        }
        let mut catalog = Catalog::empty();
        std::mem::swap(&mut catalog, &mut self.catalog);
        let removed = catalog.delete_subtree(root_id, relative_path);
        proof {
            catalog.lemma_valid();
        }
        self.catalog = catalog;
        removed
    }

    /// Ends a scan of a root. After an error-free scan every entry of the
    /// root that the scan's generation did not write is removed; after a scan
    /// with errors nothing is removed. The root records the outcome either
    /// way. Returns how many entries were removed.
    pub fn finish_scan(
        &mut self,
        root_id: i64,
        generation: i64,
        completed_at_ms: i64,
        elapsed_ms: u64,
        errors: u64,
    ) -> (removed: u64)
        ensures
            scan_closed(old(self)@, final(self)@, root_id, generation, completed_at_ms, elapsed_ms, errors, removed),
            final(self).location() == old(self).location(),
            index_valid(final(self)@),
    {
        proof {
            use_type_invariant(&*self);
        }
        let mut catalog = Catalog::empty();
        std::mem::swap(&mut catalog, &mut self.catalog);
        let removed = catalog.finish_scan(root_id, generation, completed_at_ms, elapsed_ms, errors);
        proof {
            catalog.lemma_valid();
        }
        self.catalog = catalog;
        removed
    }

    /// Case-insensitive substring search over names: the query is lower-cased
    /// and matched against lower-cased names.
    pub fn search(&self, query: &str, limit: usize) -> (results: Vec<SearchResult>)
        ensures
            is_top_results(self@, |k: EntryKey| name_contains(self@, lowercase(query@), k), limit as nat, results_view(results@)),
    {
        let term = to_lowercase(query);
        self.search_normalized(term.as_str(), limit)
    }

    /// The first `limit` entries whose lower-cased name contains `term`,
    /// shortest names first and equal-length names in lexicographic order.
    pub fn search_normalized(&self, term: &str, limit: usize) -> (results: Vec<SearchResult>)
        ensures
            is_top_results(self@, |k: EntryKey| name_contains(self@, term@, k), limit as nat, results_view(results@)),
    {
        proof {
            use_type_invariant(self);
        }
        let filter = Filter::Name { term: chars_of(term) };
        let results = self.catalog.collect(&filter, limit);
        proof {
            let a = |k: EntryKey| filter_accepts(filter, self@, k);
            let b = |k: EntryKey| name_contains(self@, term@, k);
            assert(a =~= b);
        }
        results
    }

    /// The first `limit` entries that a parsed query accepts, in the same
    /// order as `search_normalized`.
    pub fn search_query(&self, query: &SearchQuery, limit: usize) -> (results: Vec<SearchResult>)
        ensures
            is_top_results(self@, |k: EntryKey| query_matches(self@, query@, k), limit as nat, results_view(results@)),
    {
        proof {
            use_type_invariant(self);
        }
        let mut names: Vec<Vec<char>> = Vec::new();
        let mut globs: Vec<bool> = Vec::new();
        let mut i: usize = 0;
        while i < query.name_terms.len()
            invariant
                i <= query.name_terms@.len(),
                names@.len() == i,
                globs@.len() == i,
                forall|k: int| 0 <= k < i ==> (#[trigger] names@[k])@ == query@.name_terms[k],
                forall|k: int| 0 <= k < i ==> #[trigger] globs@[k] == has_wildcard_chars(query@.name_terms[k]),
            decreases query.name_terms.len() - i,
        {
            names.push(chars_of(query.name_terms[i].as_str()));
            globs.push(has_wildcards(query.name_terms[i].as_str()));
            i = i + 1;
        }
        let mut paths: Vec<Vec<char>> = Vec::new();
        let mut j: usize = 0;
        while j < query.path_terms.len()
            invariant
                j <= query.path_terms@.len(),
                paths@.len() == j,
                forall|k: int| 0 <= k < j ==> (#[trigger] paths@[k])@ == query@.path_terms[k],
            decreases query.path_terms.len() - j,
        {
            paths.push(chars_of(query.path_terms[j].as_str()));
            j = j + 1;
        }
        let filter = Filter::Query { names, globs, paths, match_path: query.match_path, query: Ghost(query@) };
        let results = self.catalog.collect(&filter, limit);
        proof {
            let a = |k: EntryKey| filter_accepts(filter, self@, k);
            let b = |k: EntryKey| query_matches(self@, query@, k);
            assert(a =~= b);
        }
        results
    }

    /// Parses `query` and lists the first `limit` entries it accepts; an
    /// unterminated quote or an empty `path:` term is rejected.
    pub fn search_with_options(&self, query: &str, limit: usize, options: SearchOptions) -> (result: Result<Vec<SearchResult>, QueryError>)
        ensures
            match parse_spec(query@, options) {
                Ok(q) => result matches Ok(results) && is_top_results(self@, |k: EntryKey| query_matches(self@, q, k), limit as nat, results_view(results@)),
                Err(e) => result == Err::<Vec<SearchResult>, QueryError>(e),
            },
    {
        match parse(query, options) {
            Ok(q) => Ok(self.search_query(&q, limit)),
            Err(e) => Err(e),
        }
    }

    /// The roots and the entries of the index as rows, ready to be written
    /// out.
    pub fn snapshot(&self) -> (rows: (Vec<RootRow>, Vec<EntryRow>))
        ensures
            rows_consistent(rows.0@, rows.1@),
            rows_describe(self@, rows.0@, rows.1@),
    {
        proof {
            use_type_invariant(self);
        }
        self.catalog.snapshot()
    }

    /// An index at `path` holding the given rows. Rows that do not form a
    /// consistent index are refused.
    pub fn restore(path: String, roots: &[RootRow], entries: &[EntryRow]) -> (result: Result<Index, IndexError>)
        ensures
            restore_outcome(path@, roots@, entries@, result),
    {
        match Catalog::from_rows(roots, entries) {
            Some(catalog) => {
                proof {
                    catalog.lemma_valid();
                }
                Ok(Index { path, catalog })
            },
            None => Err(IndexError::InconsistentRows),
        }
    }

    /// The status of every registered root, ordered by path.
    pub fn statuses(&self) -> (out: Vec<RootStatus>)
        ensures
            is_status_listing(self@, statuses_view(out@)),
    {
        proof {
            use_type_invariant(self);
        }
        self.catalog.statuses()
    }
}

} // verus!
