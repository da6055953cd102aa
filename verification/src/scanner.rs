//! Scanning a root: the decisions taken for each walked item, batching of
//! entries into the index, progress and completion events, and the final
//! reconciliation. The directory walk itself is performed by the caller,
//! which hands each item to a `ScanSession`.
use vstd::prelude::*;

use crate::db::{apply_batch, batch_view, is_stale, keep_pred, stale_pred, upserted};
use crate::db::{scan_begun, scan_closed, scan_finished, pruned, registered};
use crate::db::{EntryKey, Index, IndexError, IndexView, StoredEntry};
use crate::db::{last_with_path, lemma_batch_read_back, lemma_batches_compose};
use crate::model::{copy_bytes, EntryData, EntryKind, IndexedEntry};
use crate::paths::{file_name, file_name_of, same_path, strip_base, strip_prefix, components};
use crate::paths::{dot, join_parts, path_starts_with, slash};
use crate::telemetry::{TelemetryEvent, SCHEMA_VERSION};
use crate::text::{lossy_string, lowercase, to_lowercase, utf8_lossy};

verus! {

/// How many entries are written to the index at a time.
pub const BATCH_SIZE: usize = 2000;

/// The least time between two progress events, in milliseconds.
pub const PROGRESS_INTERVAL_MS: u64 = 250;

/// The result of scanning a root.
#[derive(Debug)]
pub struct ScanOutcome {
    pub root_id: i64,
    pub entries_seen: u64,
    pub removed_entries: u64,
    pub errors: u64,
    pub elapsed_ms: u64,
    pub synchronized: bool,
}

/// The metadata of a walked path that the index records.
#[derive(Debug, Clone, Copy)]
pub struct EntryMeta {
    pub is_file: bool,
    pub is_dir: bool,
    pub is_symlink: bool,
    pub device_id: u64,
    pub inode: u64,
    pub size: u64,
    pub mtime: i64,
    pub mtime_nsec: i64,
}

/// A regular file, a directory, a symbolic link, or anything else, in that
/// order of precedence.
pub open spec fn kind_of(meta: EntryMeta) -> EntryKind {
    if meta.is_file {
        EntryKind::File
    } else if meta.is_dir {
        EntryKind::Directory
    } else if meta.is_symlink {
        EntryKind::Symlink
    } else {
        EntryKind::Other
    }
}

pub fn entry_kind(meta: &EntryMeta) -> (kind: EntryKind)
    ensures
        kind == kind_of(*meta),
{
    if meta.is_file {
        EntryKind::File
    } else if meta.is_dir {
        EntryKind::Directory
    } else if meta.is_symlink {
        EntryKind::Symlink
    } else {
        EntryKind::Other
    }
}

/// `x` clamped to the range of `i64`.
pub open spec fn clamp_i64(x: int) -> i64 {
    if x > i64::MAX {
        i64::MAX
    } else if x < i64::MIN {
        i64::MIN
    } else {
        x as i64
    }
}

/// The modification time in nanoseconds: seconds times one billion plus the
/// nanoseconds, each step saturating at the bounds of `i64`.
pub open spec fn mtime_ns_of(mtime: i64, mtime_nsec: i64) -> i64 {
    clamp_i64(clamp_i64(mtime * 1_000_000_000) + mtime_nsec)
}

fn saturate(x: i128) -> (r: i64)
    ensures
        r == clamp_i64(x as int),
{
    if x > i64::MAX as i128 {
        i64::MAX
    } else if x < i64::MIN as i128 {
        i64::MIN
    } else {
        x as i64
    }
}

pub fn mtime_ns(mtime: i64, mtime_nsec: i64) -> (ns: i64)
    ensures
        ns == mtime_ns_of(mtime, mtime_nsec),
{
    let seconds = saturate(mtime as i128 * 1_000_000_000);
    saturate(seconds as i128 + mtime_nsec as i128)
}

/// The entry recorded for `path` below `root`: its relative path and name
/// as raw bytes, their lossy UTF-8 forms, the lower-cased name, and the
/// metadata. There is none when `path` does not lie strictly below `root`
/// or has no final name.
pub open spec fn entry_spec(root: Seq<u8>, path: Seq<u8>, meta: EntryMeta) -> Option<EntryData> {
    match (strip_base(path, root), file_name_of(path)) {
        (Some(rel), Some(name)) => if rel.len() > 0 {
            Some(
                EntryData {
                    relative_path: rel,
                    display_path: utf8_lossy(rel),
                    name,
                    display_name: utf8_lossy(name),
                    normalized_name: lowercase(utf8_lossy(name)),
                    kind: kind_of(meta),
                    device_id: meta.device_id,
                    inode: meta.inode,
                    size: meta.size,
                    mtime_ns: mtime_ns_of(meta.mtime, meta.mtime_nsec),
                },
            )
        } else {
            None
        },
        _ => None,
    }
}

/// An entry from its parts: the texts are taken as given.
pub fn assemble_entry(
    relative_path: Vec<u8>,
    name: Vec<u8>,
    display_path: String,
    display_name: String,
    normalized_name: String,
    meta: &EntryMeta,
) -> (entry: IndexedEntry)
    ensures
        entry@ == (EntryData {
            relative_path: relative_path@,
            display_path: display_path@,
            name: name@,
            display_name: display_name@,
            normalized_name: normalized_name@,
            kind: kind_of(*meta),
            device_id: meta.device_id,
            inode: meta.inode,
            size: meta.size,
            mtime_ns: mtime_ns_of(meta.mtime, meta.mtime_nsec),
        }),
{
    IndexedEntry {
        relative_path,
        display_path,
        name,
        display_name,
        normalized_name,
        kind: entry_kind(meta),
        device_id: meta.device_id,
        inode: meta.inode,
        size: meta.size,
        mtime_ns: mtime_ns(meta.mtime, meta.mtime_nsec),
    }
}

/// The entry recorded for `path` below `root`.
pub fn build_entry(root: &[u8], path: &[u8], meta: &EntryMeta) -> (entry: Option<IndexedEntry>)
    ensures
        match entry_spec(root@, path@, *meta) {
            Some(data) => entry matches Some(e) && e@ == data,
            None => entry is None,
        },
{
    let relative = match strip_prefix(path, root) {
        Some(relative) => relative,
        None => return None,
    };
    if relative.len() == 0 {
        return None;
    }
    let name = match file_name(path) {
        Some(name) => name,
        None => return None,
    };
    let display_path = lossy_string(relative.as_slice());
    let display_name = lossy_string(name.as_slice());
    let normalized_name = to_lowercase(display_name.as_str());
    Some(assemble_entry(relative, name, display_path, display_name, normalized_name, meta))
}

// ---------------------------------------------------------------------------
// Exclusions.
// ---------------------------------------------------------------------------

pub open spec fn wal_suffix() -> Seq<u8> {
    seq![0x2du8, 0x77u8, 0x61u8, 0x6cu8]
}

pub open spec fn shm_suffix() -> Seq<u8> {
    seq![0x2du8, 0x73u8, 0x68u8, 0x6du8]
}

/// Each excluded path together with its SQLite `-wal` and `-shm`
/// companions.
pub open spec fn exclusion_set(paths: Seq<Seq<u8>>) -> Seq<Seq<u8>>
    decreases paths.len(),
{
    if paths.len() == 0 {
        Seq::empty()
    } else {
        exclusion_set(paths.drop_last()) + seq![
            paths.last(),
            paths.last() + wal_suffix(),
            paths.last() + shm_suffix(),
        ]
    }
}

pub open spec fn bytes_view(v: Seq<Vec<u8>>) -> Seq<Seq<u8>> {
    v.map_values(|b: Vec<u8>| b@)
}

fn with_suffix(path: &Vec<u8>, suffix: [u8; 4]) -> (out: Vec<u8>)
    ensures
        out@ == path@ + suffix@,
{
    let mut out = copy_bytes(path.as_slice());
    let mut i: usize = 0;
    while i < 4
        invariant
            i <= 4,
            out@ == path@ + suffix@.take(i as int),
        decreases 4 - i,
    {
        out.push(suffix[i]);
        assert(suffix@.take(i + 1) =~= suffix@.take(i as int).push(suffix@[i as int]));
        i = i + 1;
    }
    assert(suffix@.take(4) =~= suffix@);
    out
}

/// The paths a scan skips: each excluded path and its `-wal` and `-shm`
/// companions.
pub fn normalize_exclusions(exclusions: &[Vec<u8>]) -> (out: Vec<Vec<u8>>)
    ensures
        bytes_view(out@) == exclusion_set(bytes_view(exclusions@)),
{
    let ghost ev = bytes_view(exclusions@);
    let mut out: Vec<Vec<u8>> = Vec::new();
    let mut i: usize = 0;
    while i < exclusions.len()
        invariant
            i <= exclusions@.len(),
            ev == bytes_view(exclusions@),
            bytes_view(out@) == exclusion_set(ev.take(i as int)),
        decreases exclusions.len() - i,
    {
        let path = &exclusions[i];
        let ghost before = bytes_view(out@);
        let wal = with_suffix(path, [0x2du8, 0x77u8, 0x61u8, 0x6cu8]);
        let shm = with_suffix(path, [0x2du8, 0x73u8, 0x68u8, 0x6du8]);
        out.push(copy_bytes(path.as_slice()));
        out.push(wal);
        out.push(shm);
        proof {
            assert([0x2du8, 0x77u8, 0x61u8, 0x6cu8]@ =~= wal_suffix());
            assert([0x2du8, 0x73u8, 0x68u8, 0x6du8]@ =~= shm_suffix());
            assert(ev.take(i + 1).drop_last() =~= ev.take(i as int));
            assert(ev.take(i + 1).last() == path@);
            assert(bytes_view(out@) =~= before + seq![path@, path@ + wal_suffix(), path@ + shm_suffix()]);
        }
        i = i + 1;
    }
    assert(ev.take(exclusions@.len() as int) =~= ev);
    out
}

/// Whether `path` is one of the excluded paths (compared as paths).
pub fn is_excluded(path: &[u8], exclusions: &[Vec<u8>]) -> (r: bool)
    ensures
        r == exists|i: int| 0 <= i < exclusions@.len() && components(path@) == components(
            #[trigger] exclusions@[i]@,
        ),
{
    let mut i: usize = 0;
    while i < exclusions.len()
        invariant
            i <= exclusions@.len(),
            forall|k: int| 0 <= k < i ==> components(path@) != components(#[trigger] exclusions@[k]@),
        decreases exclusions.len() - i,
    {
        if same_path(path, exclusions[i].as_slice()) {
            return true;
        }
        i = i + 1;
    }
    false
}

/// Whether the walk descends into an item: the root always, anything else
/// unless it is excluded.
pub fn keep_walk_entry(depth: usize, path: &[u8], exclusions: &[Vec<u8>]) -> (r: bool)
    ensures
        r == (depth == 0 || !exists|i: int| 0 <= i < exclusions@.len() && components(path@) == components(
            #[trigger] exclusions@[i]@,
        )),
{
    depth == 0 || !is_excluded(path, exclusions)
}

// ---------------------------------------------------------------------------
// Events.
// ---------------------------------------------------------------------------

/// The health event announcing that a scan is running.
pub fn scanning_event(timestamp_ms: u64) -> (event: TelemetryEvent)
    ensures
        event matches TelemetryEvent::HealthChanged { schema_version, timestamp_ms: t, state, reason }
            && schema_version == 1 && t == timestamp_ms && state@ == "scanning"@ && reason is None,
{
    TelemetryEvent::HealthChanged {
        schema_version: SCHEMA_VERSION,
        timestamp_ms,
        state: "scanning",
        reason: None,
    }
}

/// Scan throughput: entries per second over the elapsed milliseconds, zero
/// before any time has passed; the product saturates at `u64::MAX`.
pub open spec fn rate_per_second(entries_seen: u64, elapsed_ms: u64) -> u64 {
    if elapsed_ms == 0 {
        0
    } else {
        ((if entries_seen * 1000 > u64::MAX {
            u64::MAX as int
        } else {
            entries_seen * 1000
        }) / (elapsed_ms as int)) as u64
    }
}

pub fn entries_per_second(entries_seen: u64, elapsed_ms: u64) -> (rate: u64)
    ensures
        rate == rate_per_second(entries_seen, elapsed_ms),
{
    if elapsed_ms == 0 {
        0
    } else {
        let scaled: u64 = if entries_seen > u64::MAX / 1000 {
            u64::MAX
        } else {
            entries_seen * 1000
        };
        scaled / elapsed_ms
    }
}

/// Whether a progress event is due at `now_ms`, the last one having been
/// reported at `last_ms` (both on the scan's clock): only once at least
/// `PROGRESS_INTERVAL_MS` have passed, so that at most four progress events
/// are reported per second.
pub fn progress_due(last_ms: u64, now_ms: u64) -> (due: bool)
    ensures
        due == (now_ms >= last_ms + PROGRESS_INTERVAL_MS),
{
    now_ms >= last_ms && now_ms - last_ms >= PROGRESS_INTERVAL_MS
}

/// The progress event for a scan that has seen `entries_seen` entries and
/// `errors` errors after `elapsed_ms` milliseconds.
pub fn progress_event(root_id: i64, entries_seen: u64, errors: u64, elapsed_ms: u64, timestamp_ms: u64) -> (event: TelemetryEvent)
    ensures
        event == (TelemetryEvent::ScanProgress {
            schema_version: 1,
            timestamp_ms,
            root_id,
            entries_seen,
            errors,
            elapsed_ms,
            entries_per_second: rate_per_second(entries_seen, elapsed_ms),
        }),
{
    TelemetryEvent::ScanProgress {
        schema_version: SCHEMA_VERSION,
        timestamp_ms,
        root_id,
        entries_seen,
        errors,
        elapsed_ms,
        entries_per_second: entries_per_second(entries_seen, elapsed_ms),
    }
}

/// The event reporting a finished scan.
pub fn completed_event(outcome: &ScanOutcome, timestamp_ms: u64) -> (event: TelemetryEvent)
    ensures
        event == (TelemetryEvent::ScanCompleted {
            schema_version: 1,
            timestamp_ms,
            root_id: outcome.root_id,
            entries_seen: outcome.entries_seen,
            removed_entries: outcome.removed_entries,
            errors: outcome.errors,
            elapsed_ms: outcome.elapsed_ms,
            synchronized: outcome.synchronized,
        }),
{
    TelemetryEvent::ScanCompleted {
        schema_version: SCHEMA_VERSION,
        timestamp_ms,
        root_id: outcome.root_id,
        entries_seen: outcome.entries_seen,
        removed_entries: outcome.removed_entries,
        errors: outcome.errors,
        elapsed_ms: outcome.elapsed_ms,
        synchronized: outcome.synchronized,
    }
}

/// The health event after a scan: `live` when it was synchronized,
/// otherwise `degraded` because of scan errors.
pub fn health_after_scan(outcome: &ScanOutcome, timestamp_ms: u64) -> (event: TelemetryEvent)
    ensures
        event matches TelemetryEvent::HealthChanged { schema_version, timestamp_ms: t, state, reason }
            && schema_version == 1 && t == timestamp_ms && (if outcome.synchronized {
            state@ == "live"@ && reason is None
        } else {
            state@ == "degraded"@ && reason == Some("scan_errors")
        }),
{
    if outcome.synchronized {
        TelemetryEvent::HealthChanged {
            schema_version: SCHEMA_VERSION,
            timestamp_ms,
            state: "live",
            reason: None,
        }
    } else {
        TelemetryEvent::HealthChanged {
            schema_version: SCHEMA_VERSION,
            timestamp_ms,
            state: "degraded",
            reason: Some("scan_errors"),
        }
    }
}

/// The progress event of a scan of `root_id` that has seen `entries_seen`
/// entries and `errors` errors after `elapsed_ms` milliseconds.
pub open spec fn progress_of(root_id: i64, entries_seen: u64, errors: u64, elapsed_ms: u64, timestamp_ms: u64) -> TelemetryEvent {
    TelemetryEvent::ScanProgress {
        schema_version: 1,
        timestamp_ms,
        root_id,
        entries_seen,
        errors,
        elapsed_ms,
        entries_per_second: rate_per_second(entries_seen, elapsed_ms),
    }
}

/// The events that open a scan of `root_id`: the index turns to scanning,
/// then the scan starts.
pub open spec fn opening_trace(root_id: i64, scanning_ms: u64, started_ms: u64) -> Seq<TelemetryEvent> {
    seq![
        TelemetryEvent::HealthChanged { schema_version: 1, timestamp_ms: scanning_ms, state: "scanning", reason: None },
        TelemetryEvent::ScanStarted { schema_version: 1, timestamp_ms: started_ms, root_id },
    ]
}

/// The events that close a scan with `outcome`: the scan completes, then
/// the index turns live, or degraded when the scan met errors.
pub open spec fn closing_trace(outcome: ScanOutcome, completed_ms: u64, health_ms: u64) -> Seq<TelemetryEvent> {
    seq![
        TelemetryEvent::ScanCompleted {
            schema_version: 1,
            timestamp_ms: completed_ms,
            root_id: outcome.root_id,
            entries_seen: outcome.entries_seen,
            removed_entries: outcome.removed_entries,
            errors: outcome.errors,
            elapsed_ms: outcome.elapsed_ms,
            synchronized: outcome.synchronized,
        },
        if outcome.synchronized {
            TelemetryEvent::HealthChanged { schema_version: 1, timestamp_ms: health_ms, state: "live", reason: None }
        } else {
            TelemetryEvent::HealthChanged {
                schema_version: 1,
                timestamp_ms: health_ms,
                state: "degraded",
                reason: Some("scan_errors"),
            }
        },
    ]
}

/// The progress events of a scan of `root_id` whose walked items amounted to
/// `outcomes`, each observed at the `(elapsed_ms, timestamp_ms)` reading of
/// `clock` at the same position, together with the elapsed time of the last
/// progress event (0 before any). After an item that yields an entry, a
/// progress event is reported once `PROGRESS_INTERVAL_MS` have passed since
/// the last one.
pub open spec fn progress_trace(root_id: i64, outcomes: Seq<ItemOutcome>, clock: Seq<(u64, u64)>) -> (Seq<TelemetryEvent>, u64)
    decreases outcomes.len(),
{
    if outcomes.len() == 0 {
        (Seq::empty(), 0)
    } else {
        let before = progress_trace(root_id, outcomes.drop_last(), clock.drop_last());
        let elapsed_ms = clock.last().0;
        if outcomes.last() is Entry && elapsed_ms >= before.1 + PROGRESS_INTERVAL_MS {
            (
                before.0.push(
                    progress_of(
                        root_id,
                        outcome_entries(outcomes) as u64,
                        outcome_errors(outcomes) as u64,
                        elapsed_ms,
                        clock.last().1,
                    ),
                ),
                elapsed_ms,
            )
        } else {
            before
        }
    }
}

/// Every event of a scan of `root_id`, in order: the opening events, the
/// progress events of its walked items, and the closing events of its
/// outcome, whose counts are those of the items and which removed
/// `removed_entries` entries after `elapsed_ms` milliseconds.
pub open spec fn scan_trace(
    root_id: i64,
    outcomes: Seq<ItemOutcome>,
    clock: Seq<(u64, u64)>,
    scanning_ms: u64,
    started_ms: u64,
    removed_entries: u64,
    elapsed_ms: u64,
    completed_ms: u64,
    health_ms: u64,
) -> Seq<TelemetryEvent> {
    let errors = outcome_errors(outcomes) as u64;
    let outcome = ScanOutcome {
        root_id,
        entries_seen: outcome_entries(outcomes) as u64,
        removed_entries,
        errors,
        elapsed_ms,
        synchronized: errors == 0,
    };
    opening_trace(root_id, scanning_ms, started_ms) + progress_trace(root_id, outcomes, clock).0
        + closing_trace(outcome, completed_ms, health_ms)
}

/// The events that open a scan of `root_id`, read at `scanning_ms` and
/// `started_ms`.
pub fn opening_events(root_id: i64, scanning_ms: u64, started_ms: u64) -> (events: Vec<TelemetryEvent>)
    ensures
        events@ == opening_trace(root_id, scanning_ms, started_ms),
{
    let mut events = Vec::new();
    events.push(TelemetryEvent::HealthChanged { schema_version: SCHEMA_VERSION, timestamp_ms: scanning_ms, state: "scanning", reason: None });
    events.push(TelemetryEvent::ScanStarted { schema_version: SCHEMA_VERSION, timestamp_ms: started_ms, root_id });
    assert(events@ =~= opening_trace(root_id, scanning_ms, started_ms));
    events
}

/// The events that close a scan with `outcome`, read at `completed_ms` and
/// `health_ms`.
pub fn closing_events(outcome: &ScanOutcome, completed_ms: u64, health_ms: u64) -> (events: Vec<TelemetryEvent>)
    ensures
        events@ == closing_trace(*outcome, completed_ms, health_ms),
{
    let mut events = Vec::new();
    events.push(completed_event(outcome, completed_ms));
    if outcome.synchronized {
        events.push(TelemetryEvent::HealthChanged { schema_version: SCHEMA_VERSION, timestamp_ms: health_ms, state: "live", reason: None });
    } else {
        events.push(
            TelemetryEvent::HealthChanged {
                schema_version: SCHEMA_VERSION,
                timestamp_ms: health_ms,
                state: "degraded",
                reason: Some("scan_errors"),
            },
        );
    }
    assert(events@ =~= closing_trace(*outcome, completed_ms, health_ms));
    events
}

// ---------------------------------------------------------------------------
// Scan sessions.
// ---------------------------------------------------------------------------

/// One item produced by the directory walk.
pub enum WalkItem {
    /// The walk could not read an item.
    Unreadable,
    /// The root itself, which is not indexed.
    Root,
    /// A path below the root, with its metadata if it could be read.
    Found { path: Vec<u8>, metadata: Option<EntryMeta> },
}

/// What one walked item amounts to for the scan's counts.
pub enum ItemOutcome {
    /// The walk could not read it: an error.
    Unreadable,
    /// The root itself: not counted.
    Root,
    /// Its metadata could not be read: an error.
    NoMetadata,
    /// Its path yields no entry: an error.
    NoEntry,
    /// It yields an entry: one entry seen.
    Entry,
}

/// The outcome of a walked item for a scan of `root`.
pub open spec fn item_outcome(root: Seq<u8>, item: WalkItem) -> ItemOutcome {
    match item {
        WalkItem::Unreadable => ItemOutcome::Unreadable,
        WalkItem::Root => ItemOutcome::Root,
        WalkItem::Found { path, metadata } => match metadata {
            None => ItemOutcome::NoMetadata,
            Some(meta) => if entry_spec(root, path@, meta) is Some {
                ItemOutcome::Entry
            } else {
                ItemOutcome::NoEntry
            },
        },
    }
}

/// How many of the outcomes are errors.
pub open spec fn outcome_errors(outcomes: Seq<ItemOutcome>) -> nat
    decreases outcomes.len(),
{
    if outcomes.len() == 0 {
        0
    } else {
        outcome_errors(outcomes.drop_last()) + match outcomes.last() {
            ItemOutcome::Unreadable | ItemOutcome::NoMetadata | ItemOutcome::NoEntry => 1nat,
            _ => 0nat,
        }
    }
}

/// How many of the outcomes are entries.
pub open spec fn outcome_entries(outcomes: Seq<ItemOutcome>) -> nat
    decreases outcomes.len(),
{
    if outcomes.len() == 0 {
        0
    } else {
        outcome_entries(outcomes.drop_last()) + match outcomes.last() {
            ItemOutcome::Entry => 1nat,
            _ => 0nat,
        }
    }
}

/// The model after writing the pending entries, if there are any.
pub open spec fn flushed(
    old: IndexView,
    new: IndexView,
    root_id: i64,
    generation: i64,
    pending: Seq<EntryData>,
) -> bool {
    if pending.len() == 0 {
        new == old
    } else {
        upserted(old, new, root_id, generation, pending, Ok(()))
    }
}

/// Whether an observation succeeded, without its event.
pub open spec fn unit_of(result: Result<Option<TelemetryEvent>, IndexError>) -> Result<(), IndexError> {
    match result {
        Ok(_) => Ok(()),
        Err(e) => Err(e),
    }
}

/// The state of a scan of one root: the entries and errors seen so far and
/// the entries not yet written to the index.
pub struct ScanSession {
    root: Vec<u8>,
    root_id: i64,
    generation: i64,
    entries_seen: u64,
    errors: u64,
    batch: Vec<IndexedEntry>,
    recorded: Ghost<Seq<EntryData>>,
    base: Ghost<Map<EntryKey, StoredEntry>>,
    outcomes: Ghost<Seq<ItemOutcome>>,
    last_progress_ms: u64,
    clock: Ghost<Seq<(u64, u64)>>,
    emitted: Ghost<Seq<TelemetryEvent>>,
}

/// The recorded entries that are no longer pending.
pub open spec fn written_part(recorded: Seq<EntryData>, pending: Seq<EntryData>) -> Seq<EntryData> {
    recorded.take(recorded.len() - pending.len())
}

proof fn lemma_sync_push(r: Seq<EntryData>, p: Seq<EntryData>, d: EntryData)
    requires
        p.len() <= r.len(),
        r.skip(r.len() - p.len()) == p,
    ensures
        r.push(d).skip(r.push(d).len() - p.push(d).len()) == p.push(d),
        written_part(r.push(d), p.push(d)) == written_part(r, p),
{
    assert(r.push(d).skip(r.push(d).len() - p.push(d).len()) =~= r.skip(r.len() - p.len()).push(d));
    assert(written_part(r.push(d), p.push(d)) =~= written_part(r, p));
}

proof fn lemma_sync_flush(
    base: Map<EntryKey, StoredEntry>,
    root_id: i64,
    generation: i64,
    r: Seq<EntryData>,
    p: Seq<EntryData>,
)
    requires
        p.len() <= r.len(),
        r.skip(r.len() - p.len()) == p,
    ensures
        apply_batch(apply_batch(base, root_id, generation, written_part(r, p)), root_id, generation, p)
            == apply_batch(base, root_id, generation, r),
{
    lemma_batches_compose(base, root_id, generation, written_part(r, p), p);
    assert(written_part(r, p) + p =~= r);
}

impl ScanSession {
    /// What each item observed so far amounted to, in order.
    pub closed spec fn outcomes(&self) -> Seq<ItemOutcome> {
        self.outcomes@
    }

    /// The clock readings at which the items were observed, in order.
    pub closed spec fn clock(&self) -> Seq<(u64, u64)> {
        self.clock@
    }

    /// The progress events reported so far, in order.
    pub closed spec fn emitted(&self) -> Seq<TelemetryEvent> {
        self.emitted@
    }

    /// The elapsed time of the last progress event (0 before any).
    pub closed spec fn spec_last_progress_ms(&self) -> u64 {
        self.last_progress_ms
    }

    /// The progress events reported so far are those of the items observed,
    /// at the clock readings they were observed at.
    pub open spec fn paced(&self) -> bool {
        &&& self.clock().len() == self.outcomes().len()
        &&& self.emitted() == progress_trace(self.spec_root_id(), self.outcomes(), self.clock()).0
        &&& self.spec_last_progress_ms() == progress_trace(self.spec_root_id(), self.outcomes(), self.clock()).1
    }

    /// The session's counts are those of the items it observed.
    pub open spec fn counted(&self) -> bool {
        &&& self.spec_errors() == outcome_errors(self.outcomes())
        &&& self.spec_entries_seen() == outcome_entries(self.outcomes())
    }

    /// The entries the index held when the session began.
    pub closed spec fn base(&self) -> Map<EntryKey, StoredEntry> {
        self.base@
    }

    /// The index holds what the session has written: the entries it began
    /// with, updated with every recorded entry that is no longer pending;
    /// the pending entries are the last ones recorded.
    pub open spec fn in_sync(&self, v: IndexView) -> bool {
        &&& self.pending().len() <= self.recorded().len()
        &&& self.recorded().skip(self.recorded().len() - self.pending().len()) == self.pending()
        &&& v.entries == apply_batch(
            self.base(),
            self.spec_root_id(),
            self.spec_generation(),
            written_part(self.recorded(), self.pending()),
        )
    }

    pub closed spec fn spec_root(&self) -> Seq<u8> {
        self.root@
    }

    pub closed spec fn spec_root_id(&self) -> i64 {
        self.root_id
    }

    pub closed spec fn spec_generation(&self) -> i64 {
        self.generation
    }

    pub closed spec fn spec_entries_seen(&self) -> u64 {
        self.entries_seen
    }

    pub closed spec fn spec_errors(&self) -> u64 {
        self.errors
    }

    /// Entries recorded and not yet written to the index.
    pub closed spec fn pending(&self) -> Seq<EntryData> {
        batch_view(self.batch@)
    }

    /// Every entry recorded, in order.
    pub closed spec fn recorded(&self) -> Seq<EntryData> {
        self.recorded@
    }

    pub fn root_id(&self) -> (id: i64)
        ensures
            id == self.spec_root_id(),
    {
        self.root_id
    }

    pub fn entries_seen(&self) -> (n: u64)
        ensures
            n == self.spec_entries_seen(),
    {
        self.entries_seen
    }

    pub fn errors(&self) -> (n: u64)
        ensures
            n == self.spec_errors(),
    {
        self.errors
    }

    /// Registers the root (named by the lossy UTF-8 form of its path), marks
    /// it as scanning, and starts a session that writes with `generation`.
    pub fn begin(index: &mut Index, root: &[u8], device_id: u64, generation: i64) -> (result: Result<ScanSession, IndexError>)
        ensures
            match result {
                Ok(session) => {
                    &&& exists|mid: IndexView| registered(old(index)@, mid, utf8_lossy(root@), device_id, Ok(session.spec_root_id()))
                        && final(index)@ == (IndexView { roots: scan_begun(mid.roots, session.spec_root_id()), ..mid })
                    &&& session.spec_root() == root@
                    &&& session.spec_generation() == generation
                    &&& session.spec_entries_seen() == 0
                    &&& session.spec_errors() == 0
                    &&& session.pending() == Seq::<EntryData>::empty()
                    &&& session.recorded() == Seq::<EntryData>::empty()
                    &&& session.base() == final(index)@.entries
                    &&& session.in_sync(final(index)@)
                    &&& session.outcomes() == Seq::<ItemOutcome>::empty()
                    &&& session.counted()
                    &&& session.emitted() == Seq::<TelemetryEvent>::empty()
                    &&& session.paced()
                },
                Err(e) => registered(old(index)@, final(index)@, utf8_lossy(root@), device_id, Err(e)),
            },
    {
        let display = lossy_string(root);
        let root_id = match index.register_root(display.as_str(), device_id) {
            Ok(id) => id,
            Err(e) => return Err(e),
        };
        let ghost mid = index@;
        index.begin_scan(root_id);
        let session = ScanSession {
            root: copy_bytes(root),
            root_id,
            generation,
            entries_seen: 0,
            errors: 0,
            batch: Vec::new(),
            recorded: Ghost(Seq::empty()),
            base: Ghost(index@.entries),
            outcomes: Ghost(Seq::empty()),
            last_progress_ms: 0,
            clock: Ghost(Seq::empty()),
            emitted: Ghost(Seq::empty()),
        };
        assert(session.pending() =~= Seq::<EntryData>::empty());
        assert(written_part(session.recorded(), session.pending()) =~= Seq::<EntryData>::empty());
        assert(session.recorded().skip(0) =~= Seq::<EntryData>::empty());
        assert(registered(old(index)@, mid, utf8_lossy(root@), device_id, Ok(session.spec_root_id()))
            && index@ == (IndexView { roots: scan_begun(mid.roots, session.spec_root_id()), ..mid }));
        Ok(session)
    }

    /// Counts an error.
    pub fn record_error(&mut self)
        requires
            old(self).spec_errors() < u64::MAX,
        ensures
            final(self).spec_errors() == old(self).spec_errors() + 1,
            final(self).spec_entries_seen() == old(self).spec_entries_seen(),
            final(self).spec_root() == old(self).spec_root(),
            final(self).spec_root_id() == old(self).spec_root_id(),
            final(self).spec_generation() == old(self).spec_generation(),
            final(self).pending() == old(self).pending(),
            final(self).recorded() == old(self).recorded(),
            final(self).base() == old(self).base(),
            final(self).outcomes() == old(self).outcomes(),
            final(self).clock() == old(self).clock(),
            final(self).emitted() == old(self).emitted(),
            final(self).spec_last_progress_ms() == old(self).spec_last_progress_ms(),
    {
        self.errors = self.errors + 1;
    }

    /// Records an entry; once a full batch is pending it is written to the
    /// index.
    pub fn record_entry(&mut self, index: &mut Index, entry: IndexedEntry) -> (result: Result<(), IndexError>)
        requires
            old(self).spec_entries_seen() < u64::MAX,
        ensures
            final(self).spec_root() == old(self).spec_root(),
            final(self).spec_root_id() == old(self).spec_root_id(),
            final(self).spec_generation() == old(self).spec_generation(),
            final(self).spec_errors() == old(self).spec_errors(),
            final(self).spec_entries_seen() == old(self).spec_entries_seen() + 1,
            final(self).recorded() == old(self).recorded().push(entry@),
            final(self).base() == old(self).base(),
            final(self).outcomes() == old(self).outcomes(),
            final(self).clock() == old(self).clock(),
            final(self).emitted() == old(self).emitted(),
            final(self).spec_last_progress_ms() == old(self).spec_last_progress_ms(),
            old(self).in_sync(old(index)@) ==> final(self).in_sync(final(index)@),
            if old(self).pending().len() + 1 >= BATCH_SIZE {
                &&& upserted(old(index)@, final(index)@, old(self).spec_root_id(), old(self).spec_generation(), old(self).pending().push(entry@), result)
                &&& result is Ok ==> final(self).pending() == Seq::<EntryData>::empty()
                &&& result is Err ==> final(self).pending() == old(self).pending().push(entry@)
            } else {
                &&& result is Ok
                &&& final(index)@ == old(index)@
                &&& final(self).pending() == old(self).pending().push(entry@)
            },
    {
        let ghost d = entry@;
        let ghost synced = old(self).in_sync(old(index)@);
        proof {
            if synced {
                lemma_sync_push(old(self).recorded(), old(self).pending(), d);
            }
        }
        self.batch.push(entry);
        assert(batch_view(self.batch@) =~= batch_view(old(self).batch@).push(d));
        self.entries_seen = self.entries_seen + 1;
        self.recorded = Ghost(self.recorded@.push(d));
        if self.batch.len() >= BATCH_SIZE {
            let result = index.upsert_batch(self.root_id, self.generation, self.batch.as_slice());
            if result.is_ok() {
                self.batch.clear();
                assert(batch_view(self.batch@) =~= Seq::<EntryData>::empty());
                proof {
                    if synced {
                        let r = self.recorded();
                        let p = old(self).pending().push(d);
                        lemma_sync_flush(self.base(), self.root_id, self.generation, r, p);
                        assert(written_part(r, Seq::<EntryData>::empty()) =~= r);
                        assert(r.skip(r.len() as int) =~= Seq::<EntryData>::empty());
                    }
                }
            }
            result
        } else {
            Ok(())
        }
    }

    /// Handles one item of the walk, observed at `elapsed_ms` since the scan
    /// started and at `timestamp_ms`: unreadable items, items without
    /// metadata and paths that yield no entry count as errors; the root is
    /// skipped; every other path is recorded. After a recorded entry, a
    /// progress event is returned once `PROGRESS_INTERVAL_MS` have passed
    /// since the last one.
    pub fn observe(&mut self, index: &mut Index, item: WalkItem, elapsed_ms: u64, timestamp_ms: u64) -> (result: Result<Option<TelemetryEvent>, IndexError>)
        requires
            old(self).spec_errors() < u64::MAX,
            old(self).spec_entries_seen() < u64::MAX,
        ensures
            final(self).clock() == old(self).clock().push((elapsed_ms, timestamp_ms)),
            match result {
                Ok(event) => if item_outcome(old(self).spec_root(), item) is Entry && elapsed_ms
                    >= old(self).spec_last_progress_ms() + PROGRESS_INTERVAL_MS {
                    &&& event == Some(progress_of(old(self).spec_root_id(), final(self).spec_entries_seen(), final(self).spec_errors(), elapsed_ms, timestamp_ms))
                    &&& final(self).emitted() == old(self).emitted().push(event->0)
                    &&& final(self).spec_last_progress_ms() == elapsed_ms
                } else {
                    &&& event is None
                    &&& final(self).emitted() == old(self).emitted()
                    &&& final(self).spec_last_progress_ms() == old(self).spec_last_progress_ms()
                },
                Err(_) => final(self).emitted() == old(self).emitted(),
            },
            old(self).counted() && old(self).paced() && result is Ok ==> final(self).paced(),
            final(self).spec_root() == old(self).spec_root(),
            final(self).spec_root_id() == old(self).spec_root_id(),
            final(self).spec_generation() == old(self).spec_generation(),
            final(self).base() == old(self).base(),
            old(self).in_sync(old(index)@) ==> final(self).in_sync(final(index)@),
            final(self).outcomes() == old(self).outcomes().push(item_outcome(old(self).spec_root(), item)),
            old(self).counted() ==> final(self).counted(),
            match item {
                WalkItem::Root => {
                    &&& result is Ok
                    &&& final(index)@ == old(index)@
                    &&& final(self).spec_errors() == old(self).spec_errors()
                    &&& final(self).spec_entries_seen() == old(self).spec_entries_seen()
                    &&& final(self).pending() == old(self).pending()
                    &&& final(self).recorded() == old(self).recorded()
                },
                WalkItem::Found { path, metadata: Some(meta) } if entry_spec(old(self).spec_root(), path@, meta) is Some => {
                    let d = entry_spec(old(self).spec_root(), path@, meta)->0;
                    &&& final(self).spec_errors() == old(self).spec_errors()
                    &&& final(self).spec_entries_seen() == old(self).spec_entries_seen() + 1
                    &&& final(self).recorded() == old(self).recorded().push(d)
                    &&& if old(self).pending().len() + 1 >= BATCH_SIZE {
                        &&& upserted(old(index)@, final(index)@, old(self).spec_root_id(), old(self).spec_generation(), old(self).pending().push(d), unit_of(result))
                        &&& result is Ok ==> final(self).pending() == Seq::<EntryData>::empty()
                        &&& result is Err ==> final(self).pending() == old(self).pending().push(d)
                    } else {
                        &&& result is Ok
                        &&& final(index)@ == old(index)@
                        &&& final(self).pending() == old(self).pending().push(d)
                    }
                },
                _ => {
                    &&& result is Ok
                    &&& final(index)@ == old(index)@
                    &&& final(self).spec_errors() == old(self).spec_errors() + 1
                    &&& final(self).spec_entries_seen() == old(self).spec_entries_seen()
                    &&& final(self).pending() == old(self).pending()
                    &&& final(self).recorded() == old(self).recorded()
                },
            },
    {
        let ghost outcome = item_outcome(self.root@, item);
        let ghost before = self.outcomes@;
        let ghost clock_before = self.clock@;
        self.outcomes = Ghost(before.push(outcome));
        self.clock = Ghost(clock_before.push((elapsed_ms, timestamp_ms)));
        assert(self.outcomes@.drop_last() =~= before);
        assert(self.clock@.drop_last() =~= clock_before);
        let seen_before = self.entries_seen;
        let recorded = match item {
            WalkItem::Unreadable => {
                self.record_error();
                Ok(())
            },
            WalkItem::Root => Ok(()),
            WalkItem::Found { path, metadata } => match metadata {
                None => {
                    self.record_error();
                    Ok(())
                },
                Some(meta) => match build_entry(self.root.as_slice(), path.as_slice(), &meta) {
                    None => {
                        self.record_error();
                        Ok(())
                    },
                    Some(entry) => self.record_entry(index, entry),
                },
            },
        };
        match recorded {
            Err(e) => Err(e),
            Ok(()) => {
                if self.entries_seen > seen_before && progress_due(self.last_progress_ms, elapsed_ms) {
                    let event = progress_event(self.root_id, self.entries_seen, self.errors, elapsed_ms, timestamp_ms);
                    self.last_progress_ms = elapsed_ms;
                    self.emitted = Ghost(self.emitted@.push(progress_of(self.root_id, self.entries_seen, self.errors, elapsed_ms, timestamp_ms)));
                    Ok(Some(event))
                } else {
                    Ok(None)
                }
            },
        }
    }

    /// The progress event after `elapsed_ms` milliseconds.
    pub fn progress(&self, elapsed_ms: u64, timestamp_ms: u64) -> (event: TelemetryEvent)
        ensures
            event == (TelemetryEvent::ScanProgress {
                schema_version: 1,
                timestamp_ms,
                root_id: self.spec_root_id(),
                entries_seen: self.spec_entries_seen(),
                errors: self.spec_errors(),
                elapsed_ms,
                entries_per_second: rate_per_second(self.spec_entries_seen(), elapsed_ms),
            }),
    {
        progress_event(self.root_id, self.entries_seen, self.errors, elapsed_ms, timestamp_ms)
    }

    /// Writes the pending entries to the index, if there are any.
    pub fn flush(&mut self, index: &mut Index) -> (result: Result<(), IndexError>)
        ensures
            final(self).spec_root() == old(self).spec_root(),
            final(self).spec_root_id() == old(self).spec_root_id(),
            final(self).spec_generation() == old(self).spec_generation(),
            final(self).spec_errors() == old(self).spec_errors(),
            final(self).spec_entries_seen() == old(self).spec_entries_seen(),
            final(self).recorded() == old(self).recorded(),
            final(self).base() == old(self).base(),
            final(self).outcomes() == old(self).outcomes(),
            final(self).clock() == old(self).clock(),
            final(self).emitted() == old(self).emitted(),
            final(self).spec_last_progress_ms() == old(self).spec_last_progress_ms(),
            old(self).in_sync(old(index)@) ==> final(self).in_sync(final(index)@),
            if old(self).pending().len() == 0 {
                &&& result is Ok
                &&& final(index)@ == old(index)@
                &&& final(self).pending() == old(self).pending()
            } else {
                &&& upserted(old(index)@, final(index)@, old(self).spec_root_id(), old(self).spec_generation(), old(self).pending(), result)
                &&& result is Ok ==> final(self).pending() == Seq::<EntryData>::empty()
                &&& result is Err ==> final(self).pending() == old(self).pending()
            },
    {
        if self.batch.len() == 0 {
            return Ok(());
        }
        let ghost synced = old(self).in_sync(old(index)@);
        let result = index.upsert_batch(self.root_id, self.generation, self.batch.as_slice());
        if result.is_ok() {
            self.batch.clear();
            assert(batch_view(self.batch@) =~= Seq::<EntryData>::empty());
            proof {
                if synced {
                    let r = self.recorded();
                    lemma_sync_flush(self.base(), self.root_id, self.generation, r, old(self).pending());
                    assert(written_part(r, Seq::<EntryData>::empty()) =~= r);
                    assert(r.skip(r.len() as int) =~= Seq::<EntryData>::empty());
                }
            }
        }
        result
    }

    /// Writes the pending entries and ends the scan: after an error-free
    /// scan, entries of the root that this scan did not write are removed.
    pub fn finish(self, index: &mut Index, completed_at_ms: i64, elapsed_ms: u64) -> (result: Result<ScanOutcome, IndexError>)
        ensures
            match result {
                Ok(outcome) => {
                    &&& outcome.root_id == self.spec_root_id()
                    &&& outcome.entries_seen == self.spec_entries_seen()
                    &&& outcome.errors == self.spec_errors()
                    &&& outcome.elapsed_ms == elapsed_ms
                    &&& outcome.synchronized == (self.spec_errors() == 0)
                    &&& exists|mid: IndexView|
                        flushed(old(index)@, mid, self.spec_root_id(), self.spec_generation(), self.pending())
                            && scan_closed(mid, final(index)@, self.spec_root_id(), self.spec_generation(), completed_at_ms, elapsed_ms, self.spec_errors(), outcome.removed_entries)
                },
                Err(e) => self.pending().len() > 0 && upserted(old(index)@, final(index)@, self.spec_root_id(), self.spec_generation(), self.pending(), Err(e)),
            },
            self.in_sync(old(index)@) && result is Ok ==> final(index)@.entries == (if self.spec_errors() == 0 {
                reconciled(
                    apply_batch(self.base(), self.spec_root_id(), self.spec_generation(), self.recorded()),
                    self.spec_root_id(),
                    self.spec_generation(),
                )
            } else {
                apply_batch(self.base(), self.spec_root_id(), self.spec_generation(), self.recorded())
            }),
    {
        let ghost synced = self.in_sync(old(index)@);
        proof {
            if synced {
                let r = self.recorded();
                if self.pending().len() == 0 {
                    assert(written_part(r, self.pending()) =~= r);
                } else {
                    lemma_sync_flush(self.base(), self.root_id, self.generation, r, self.pending());
                }
            }
        }
        if self.batch.len() > 0 {
            match index.upsert_batch(self.root_id, self.generation, self.batch.as_slice()) {
                Ok(()) => {},
                Err(e) => return Err(e),
            }
        }
        let ghost mid = index@;
        let removed = index.finish_scan(self.root_id, self.generation, completed_at_ms, elapsed_ms, self.errors);
        let outcome = ScanOutcome {
            root_id: self.root_id,
            entries_seen: self.entries_seen,
            removed_entries: removed,
            errors: self.errors,
            elapsed_ms,
            synchronized: self.errors == 0,
        };
        assert(flushed(old(index)@, mid, self.spec_root_id(), self.spec_generation(), self.pending())
            && scan_closed(mid, index@, self.spec_root_id(), self.spec_generation(), completed_at_ms, elapsed_ms, self.spec_errors(), outcome.removed_entries));
        Ok(outcome)
    }
}

/// A scan's counts follow from what its walked items amounted to, not from
/// their names: two sessions whose counts are those of the items they
/// observed, and whose items had the same outcomes one by one, have the
/// same error and entry counts. Those counts, with ids, durations and
/// times, are all that the progress and completion events carry.
pub proof fn lemma_counts_follow_outcomes(a: ScanSession, b: ScanSession)
    requires
        a.counted(),
        b.counted(),
        a.outcomes() == b.outcomes(),
    ensures
        a.spec_errors() == b.spec_errors(),
        a.spec_entries_seen() == b.spec_entries_seen(),
{
}

/// A component that names an entry: not empty, not the root directory, and
/// not `.` or `..`.
pub open spec fn ordinary_name(part: Seq<u8>) -> bool {
    &&& part.len() > 0
    &&& part != seq![slash()]
    &&& part != seq![dot()]
    &&& part != seq![dot(), dot()]
}

/// Two walked items of a scan of `root` that differ at most in the name of
/// the item: both unreadable, both the root, or two paths strictly below
/// the root with the same metadata whose components agree but for the last,
/// each an ordinary name.
pub open spec fn renamed_item(root: Seq<u8>, a: WalkItem, b: WalkItem) -> bool {
    match (a, b) {
        (WalkItem::Unreadable, WalkItem::Unreadable) => true,
        (WalkItem::Root, WalkItem::Root) => true,
        (WalkItem::Found { path: p, metadata: m }, WalkItem::Found { path: q, metadata: n }) => {
            let cp = components(p@);
            let cq = components(q@);
            &&& m == n
            &&& path_starts_with(p@, root)
            &&& components(root).len() < cp.len()
            &&& cp.len() == cq.len()
            &&& cp.drop_last() == cq.drop_last()
            &&& ordinary_name(cp.last())
            &&& ordinary_name(cq.last())
        },
        _ => false,
    }
}

/// Renaming an entry does not change what the walked item amounts to for a
/// scan: with `lemma_counts_follow_outcomes`, two scans whose walked items
/// differ only in their names count the same entries and errors.
pub proof fn lemma_outcome_ignores_names(root: Seq<u8>, a: WalkItem, b: WalkItem)
    requires
        renamed_item(root, a, b),
    ensures
        item_outcome(root, a) == item_outcome(root, b),
{
    match (a, b) {
        (WalkItem::Found { path: p, metadata: m }, WalkItem::Found { path: q, metadata: n }) => {
            let cp = components(p@);
            let cq = components(q@);
            let blen = components(root).len() as int;
            assert(cp.take(blen) =~= cp.drop_last().take(blen));
            assert(cq.take(blen) =~= cq.drop_last().take(blen));
            assert(path_starts_with(q@, root));
            lemma_join_ends_with_last(cp.skip(blen));
            lemma_join_ends_with_last(cq.skip(blen));
            assert(cp.skip(blen).last() == cp.last());
            assert(cq.skip(blen).last() == cq.last());
        },
        _ => {},
    }
}

/// What each of `items` amounts to for a scan of `root`, in order.
pub open spec fn outcomes_of(root: Seq<u8>, items: Seq<WalkItem>) -> Seq<ItemOutcome> {
    items.map_values(|item: WalkItem| item_outcome(root, item))
}

/// Two scans of `root` whose walked items differ only in their names, one
/// by one, count the same entries and the same errors; the progress and
/// completion events, built from those counts, ids, durations and times,
/// therefore carry nothing that tells the names apart.
pub proof fn lemma_renamed_scans_count_alike(
    root: Seq<u8>,
    items_a: Seq<WalkItem>,
    items_b: Seq<WalkItem>,
    a: ScanSession,
    b: ScanSession,
)
    requires
        a.counted(),
        b.counted(),
        a.outcomes() == outcomes_of(root, items_a),
        b.outcomes() == outcomes_of(root, items_b),
        items_a.len() == items_b.len(),
        forall|i: int| 0 <= i < items_a.len() ==> renamed_item(root, #[trigger] items_a[i], items_b[i]),
    ensures
        a.spec_errors() == b.spec_errors(),
        a.spec_entries_seen() == b.spec_entries_seen(),
{
    assert forall|i: int| 0 <= i < items_a.len() implies outcomes_of(root, items_a)[i] == outcomes_of(
        root,
        items_b,
    )[i] by {
        lemma_outcome_ignores_names(root, items_a[i], items_b[i]);
    }
    assert(outcomes_of(root, items_a) =~= outcomes_of(root, items_b));
    lemma_counts_follow_outcomes(a, b);
}

/// What a session reports is its scan's trace: the opening events, the
/// progress events it returned while observing, and the closing events of
/// the outcome that `finish` gave are, in order, the trace of the items it
/// observed at the clock readings it was given.
pub proof fn lemma_session_reports_its_trace(
    session: ScanSession,
    outcome: ScanOutcome,
    scanning_ms: u64,
    started_ms: u64,
    completed_ms: u64,
    health_ms: u64,
)
    requires
        session.counted(),
        session.paced(),
        outcome.root_id == session.spec_root_id(),
        outcome.entries_seen == session.spec_entries_seen(),
        outcome.errors == session.spec_errors(),
        outcome.synchronized == (session.spec_errors() == 0),
    ensures
        opening_trace(session.spec_root_id(), scanning_ms, started_ms) + session.emitted() + closing_trace(
            outcome,
            completed_ms,
            health_ms,
        ) == scan_trace(
            session.spec_root_id(),
            session.outcomes(),
            session.clock(),
            scanning_ms,
            started_ms,
            outcome.removed_entries,
            outcome.elapsed_ms,
            completed_ms,
            health_ms,
        ),
{
}

/// Two scans of the same root, registered under the same id, whose walked
/// items differ only in their names, one by one, and which read the same
/// clock and removed as many entries, report the very same events in the
/// same order: nothing a scan reports tells the names apart.
pub proof fn lemma_renamed_scans_report_alike(
    root: Seq<u8>,
    root_id: i64,
    items_a: Seq<WalkItem>,
    items_b: Seq<WalkItem>,
    clock: Seq<(u64, u64)>,
    scanning_ms: u64,
    started_ms: u64,
    removed_entries: u64,
    elapsed_ms: u64,
    completed_ms: u64,
    health_ms: u64,
)
    requires
        items_a.len() == items_b.len(),
        forall|i: int| 0 <= i < items_a.len() ==> renamed_item(root, #[trigger] items_a[i], items_b[i]),
    ensures
        scan_trace(root_id, outcomes_of(root, items_a), clock, scanning_ms, started_ms, removed_entries, elapsed_ms, completed_ms, health_ms)
            == scan_trace(root_id, outcomes_of(root, items_b), clock, scanning_ms, started_ms, removed_entries, elapsed_ms, completed_ms, health_ms),
{
    assert forall|i: int| 0 <= i < items_a.len() implies outcomes_of(root, items_a)[i] == outcomes_of(
        root,
        items_b,
    )[i] by {
        lemma_outcome_ignores_names(root, items_a[i], items_b[i]);
    }
    assert(outcomes_of(root, items_a) =~= outcomes_of(root, items_b));
}

/// Joining components gives at least as many bytes as the last one holds.
proof fn lemma_join_ends_with_last(parts: Seq<Seq<u8>>)
    requires
        parts.len() > 0,
    ensures
        join_parts(parts).len() >= parts.last().len(),
{
}

// ---------------------------------------------------------------------------
// Reconciliation.
// ---------------------------------------------------------------------------

/// The entries left after an error-free scan of `root_id` with
/// `generation`: those of the root written by another generation are gone.
pub open spec fn reconciled(
    entries: Map<EntryKey, StoredEntry>,
    root_id: i64,
    generation: i64,
) -> Map<EntryKey, StoredEntry> {
    entries.filter_keys(keep_pred(stale_pred(entries, root_id, generation)))
}

/// An error-free scan leaves a root holding exactly what the scan observed:
/// when the scan's generation differs from every generation stored for the
/// root, then after writing the observed entries and reconciling, a path of
/// the root is present exactly when the scan observed it, holding the last
/// observation; other roots are untouched.
pub proof fn lemma_error_free_scan_reconciles(
    start: Map<EntryKey, StoredEntry>,
    root_id: i64,
    generation: i64,
    observed: Seq<EntryData>,
    key: EntryKey,
)
    requires
        forall|k: EntryKey|
            #[trigger] start.contains_key(k) && k.0 == root_id ==> start[k].generation != generation,
    ensures
        ({
            let written = apply_batch(start, root_id, generation, observed);
            let fin = reconciled(written, root_id, generation);
            &&& key.0 == root_id ==> (fin.contains_key(key) <==> last_with_path(observed, key.1) is Some)
            &&& key.0 == root_id && fin.contains_key(key) ==> fin[key] == (StoredEntry {
                data: observed[last_with_path(observed, key.1)->0],
                generation,
            })
            &&& key.0 != root_id ==> fin.contains_key(key) == start.contains_key(key)
            &&& key.0 != root_id && start.contains_key(key) ==> fin[key] == start[key]
        }),
{
    lemma_batch_read_back(start, root_id, generation, observed, key);
}

} // verus!
