//! The decisions of the background worker that serves the search window:
//! what it reports after each piece of work, which directories it watches,
//! and which scans it queues when live monitoring loses events.
use vstd::prelude::*;

use crate::model::{RootStatus, SearchResult};
use crate::paths::{components, same_path};
use crate::query::{query_error_text, QueryError};
use crate::ui::WorkerEvent;

verus! {

/// The most results a search of the window asks for.
pub const RESULT_LIMIT: usize = 5000;

/// `prefix` followed by `message`.
pub open spec fn prefixed(prefix: Seq<char>, message: Seq<char>) -> Seq<char> {
    prefix + message
}

fn prefixed_text(prefix: &str, message: &str) -> (s: String)
    ensures
        s@ == prefix@ + message@,
{
    let mut s = String::from_str(prefix);
    s.append(message);
    s
}

/// The root paths, in order.
pub open spec fn root_paths(roots: Seq<RootStatus>) -> Seq<Seq<char>> {
    roots.map_values(|r: RootStatus| r.path@)
}

/// What the worker does when it starts: it watches every indexed root,
/// reports the statuses, and, when nothing is indexed yet, watches and
/// scans the home directory if there is one.
pub struct StartupPlan {
    pub watch: Vec<String>,
    pub ready: WorkerEvent,
    pub scan_home: Option<String>,
}

/// Paths a worker has started watching, and whether a full rescan after
/// lost events is already queued.
pub struct WorkerState {
    watched: Vec<Vec<u8>>,
    recovery_queued: bool,
}

impl WorkerState {
    /// The paths being watched.
    pub closed spec fn watched_paths(&self) -> Seq<Seq<u8>> {
        self.watched@.map_values(|p: Vec<u8>| p@)
    }

    /// Whether a rescan of every root is queued.
    pub closed spec fn spec_recovery_queued(&self) -> bool {
        self.recovery_queued
    }

    /// A worker that watches nothing and has queued nothing.
    pub fn new() -> (state: Self)
        ensures
            state.watched_paths() == Seq::<Seq<u8>>::empty(),
            !state.spec_recovery_queued(),
    {
        let state = WorkerState { watched: Vec::new(), recovery_queued: false };
        assert(state.watched_paths() =~= Seq::<Seq<u8>>::empty());
        state
    }

    pub fn recovery_queued(&self) -> (queued: bool)
        ensures
            queued == self.spec_recovery_queued(),
    {
        self.recovery_queued
    }

    /// Whether `path` is not watched yet (paths compare by components).
    pub fn needs_watch(&self, path: &[u8]) -> (r: bool)
        ensures
            r == !exists|i: int| 0 <= i < self.watched_paths().len() && components(
                #[trigger] self.watched_paths()[i],
            ) == components(path@),
    {
        let mut i: usize = 0;
        while i < self.watched.len()
            invariant
                i <= self.watched@.len(),
                forall|k: int| 0 <= k < i ==> components(#[trigger] self.watched_paths()[k]) != components(path@),
            decreases self.watched.len() - i,
        {
            assert(self.watched_paths()[i as int] == self.watched@[i as int]@);
            if same_path(self.watched[i].as_slice(), path) {
                return false;
            }
            i = i + 1;
        }
        true
    }

    /// Records that `path` is watched now.
    pub fn watching(&mut self, path: &[u8])
        ensures
            final(self).watched_paths() == old(self).watched_paths().push(path@),
            final(self).spec_recovery_queued() == old(self).spec_recovery_queued(),
    {
        self.watched.push(crate::model::copy_bytes(path));
        assert(self.watched_paths() =~= old(self).watched_paths().push(path@));
    }

    /// The report after a scan: a successful scan clears any queued
    /// rescan and reports that the scan finished; a failed one reports
    /// `Indexing failed: <message>`.
    pub fn scan_report(&mut self, outcome: Result<(), String>) -> (event: WorkerEvent)
        ensures
            final(self).watched_paths() == old(self).watched_paths(),
            match outcome {
                Ok(()) => event is ScanFinished && !final(self).spec_recovery_queued(),
                Err(message) => event matches WorkerEvent::Error(m) && m@ == "Indexing failed: "@ + message@
                    && final(self).spec_recovery_queued() == old(self).spec_recovery_queued(),
            },
    {
        match outcome {
            Ok(()) => {
                self.recovery_queued = false;
                WorkerEvent::ScanFinished
            },
            Err(message) => WorkerEvent::Error(prefixed_text("Indexing failed: ", message.as_str())),
        }
    }

    /// The report when the watcher loses events, with the roots to rescan:
    /// every root, unless a rescan is already queued.
    pub fn watch_error(&mut self, error: &str, roots: &[RootStatus]) -> (result: (WorkerEvent, Vec<String>))
        ensures
            result.0 matches WorkerEvent::WatcherDegraded(m) && m@ == "Watcher lost events; reconciliation queued: "@ + error@,
            final(self).watched_paths() == old(self).watched_paths(),
            final(self).spec_recovery_queued(),
            old(self).spec_recovery_queued() ==> result.1@.len() == 0,
            !old(self).spec_recovery_queued() ==> result.1@.map_values(|p: String| p@) == root_paths(roots@),
    {
        let event = WorkerEvent::WatcherDegraded(prefixed_text("Watcher lost events; reconciliation queued: ", error));
        let mut rescans: Vec<String> = Vec::new();
        if !self.recovery_queued {
            self.recovery_queued = true;
            let mut i: usize = 0;
            while i < roots.len()
                invariant
                    i <= roots@.len(),
                    rescans@.map_values(|p: String| p@) == root_paths(roots@.take(i as int)),
                decreases roots.len() - i,
            {
                rescans.push(roots[i].path.clone());
                assert(root_paths(roots@.take(i + 1)) =~= root_paths(roots@.take(i as int)).push(roots@[i as int].path@));
                assert(rescans@.map_values(|p: String| p@) =~= root_paths(roots@.take(i as int)).push(roots@[i as int].path@));
                i = i + 1;
            }
            assert(roots@.take(roots@.len() as int) =~= roots@);
        } else {
            assert(rescans@.len() == 0);
        }
        (event, rescans)
    }
}

/// What the worker does when it starts.
pub fn startup(statuses: Vec<RootStatus>, home: Option<String>) -> (plan: StartupPlan)
    ensures
        plan.watch@.map_values(|p: String| p@) == root_paths(statuses@),
        plan.ready matches WorkerEvent::Ready(s) && s == statuses,
        plan.scan_home == (if statuses@.len() == 0 { home } else { None }),
{
    let mut watch: Vec<String> = Vec::new();
    let mut i: usize = 0;
    while i < statuses.len()
        invariant
            i <= statuses@.len(),
            watch@.map_values(|p: String| p@) == root_paths(statuses@.take(i as int)),
        decreases statuses.len() - i,
    {
        watch.push(statuses[i].path.clone());
        assert(root_paths(statuses@.take(i + 1)) =~= root_paths(statuses@.take(i as int)).push(statuses@[i as int].path@));
        assert(watch@.map_values(|p: String| p@) =~= root_paths(statuses@.take(i as int)).push(statuses@[i as int].path@));
        i = i + 1;
    }
    assert(statuses@.take(statuses@.len() as int) =~= statuses@);
    let scan_home = if statuses.len() == 0 { home } else { None };
    StartupPlan { watch, ready: WorkerEvent::Ready(statuses), scan_home }
}

/// The report for a search: its results, or `Search failed: <reason>`.
pub fn search_report(request_id: u64, outcome: Result<Vec<SearchResult>, QueryError>, elapsed_ms: u64) -> (event: WorkerEvent)
    ensures
        match outcome {
            Ok(results) => event matches WorkerEvent::Results { request_id: r, results: v, elapsed_ms: e }
                && r == request_id && v == results && e == elapsed_ms,
            Err(error) => event matches WorkerEvent::Error(m) && m@ == "Search failed: "@ + query_error_text(error),
        },
{
    match outcome {
        Ok(results) => WorkerEvent::Results { request_id, results, elapsed_ms },
        Err(error) => WorkerEvent::Error(prefixed_text("Search failed: ", error.message())),
    }
}

/// The reports after a live update: changed entries are reported together
/// with the fresh statuses; an update that changed nothing is not reported;
/// a failed one degrades live monitoring with `Live update failed:
/// <message>`.
pub fn update_report(outcome: Result<u64, String>, statuses: Vec<RootStatus>) -> (events: Vec<WorkerEvent>)
    ensures
        match outcome {
            Ok(changed) => if changed > 0 {
                &&& events@.len() == 2
                &&& events@[0] matches WorkerEvent::IndexChanged(n) && n == changed
                &&& events@[1] matches WorkerEvent::Ready(s) && s == statuses
            } else {
                events@.len() == 0
            },
            Err(message) => {
                &&& events@.len() == 1
                &&& events@[0] matches WorkerEvent::WatcherDegraded(m) && m@ == "Live update failed: "@ + message@
            },
        },
{
    let mut events: Vec<WorkerEvent> = Vec::new();
    match outcome {
        Ok(changed) => {
            if changed > 0 {
                events.push(WorkerEvent::IndexChanged(changed));
                events.push(WorkerEvent::Ready(statuses));
            }
        },
        Err(message) => {
            events.push(WorkerEvent::WatcherDegraded(prefixed_text("Live update failed: ", message.as_str())));
        },
    }
    events
}

/// The report when live monitoring cannot start.
pub fn watcher_unavailable(error: &str) -> (event: WorkerEvent)
    ensures
        event matches WorkerEvent::WatcherDegraded(m) && m@ == "Live monitoring unavailable: "@ + error@,
{
    WorkerEvent::WatcherDegraded(prefixed_text("Live monitoring unavailable: ", error))
}

} // verus!
