//! What the command line decides beyond I/O: where the index is kept by
//! default, the line it prints for a root, and the event it reports for a
//! query.
use vstd::prelude::*;

use crate::model::{copy_bytes, RootStatus, RootStatusView};
use crate::paths::slash;
use crate::telemetry::{decimal, push_decimal, push_signed_decimal, push_str, signed_decimal};
use crate::telemetry::{TelemetryEvent, SCHEMA_VERSION};
use vstd::string::StringSliceAdditionalSpecFns;

verus! {

/// `base` followed by the relative path `rel`, with a separator between
/// them unless `base` is empty or already ends with one (`Path::join` with
/// a relative path).
pub open spec fn joined(base: Seq<u8>, rel: Seq<u8>) -> Seq<u8> {
    if base.len() == 0 || base.last() == slash() {
        base + rel
    } else {
        base.push(slash()) + rel
    }
}

fn join_relative(base: &[u8], rel: &str) -> (out: Vec<u8>)
    ensures
        out@ == joined(base@, rel.spec_bytes()),
{
    let mut out = copy_bytes(base);
    if base.len() > 0 && base[base.len() - 1] != 0x2fu8 {
        out.push(0x2fu8);
    }
    let tail = rel.as_bytes();
    let ghost head = out@;
    let mut i: usize = 0;
    while i < tail.len()
        invariant
            i <= tail@.len(),
            out@ == head + tail@.take(i as int),
        decreases tail.len() - i,
    {
        out.push(tail[i]);
        assert(tail@.take(i + 1) =~= tail@.take(i as int).push(tail@[i as int]));
        i = i + 1;
    }
    assert(tail@.take(tail@.len() as int) =~= tail@);
    out
}

/// Where the index is kept when no database is named: `fastfind/index.db`
/// under `$XDG_DATA_HOME` when it is set, else
/// `.local/share/fastfind/index.db` under `$HOME` when it is set, else
/// `fastfind.db` in `working_dir`.
pub fn default_database_location(xdg_data_home: Option<&[u8]>, home: Option<&[u8]>, working_dir: &[u8]) -> (path: Vec<u8>)
    ensures
        path@ == match xdg_data_home {
            Some(x) => joined(x@, "fastfind/index.db".spec_bytes()),
            None => match home {
                Some(h) => joined(h@, ".local/share/fastfind/index.db".spec_bytes()),
                None => joined(working_dir@, "fastfind.db".spec_bytes()),
            },
        },
{
    match xdg_data_home {
        Some(x) => join_relative(x, "fastfind/index.db"),
        None => match home {
            Some(h) => join_relative(h, ".local/share/fastfind/index.db"),
            None => join_relative(working_dir, "fastfind.db"),
        },
    }
}

/// The line `status` prints for a root: its state, entry count, path,
/// error count and the time of its last scan (`never` before any), separated
/// by tabs.
pub open spec fn status_text(status: RootStatusView) -> Seq<char> {
    status.state + "\t"@ + decimal(status.entry_count) + " entries\t"@ + status.path + "\t"@ + decimal(
        status.error_count as nat,
    ) + " errors\t"@ + match status.last_scan_ms {
        Some(ms) => signed_decimal(ms as int),
        None => "never"@,
    }
}

/// The line `status` prints for a root.
pub fn status_line(status: &RootStatus) -> (line: String)
    ensures
        line@ == status_text(status@),
{
    let mut s = String::new();
    push_str(&mut s, status.state.as_str());
    push_str(&mut s, "\t");
    push_decimal(&mut s, status.entry_count);
    push_str(&mut s, " entries\t");
    push_str(&mut s, status.path.as_str());
    push_str(&mut s, "\t");
    push_decimal(&mut s, status.error_count);
    push_str(&mut s, " errors\t");
    match status.last_scan_ms {
        Some(ms) => push_signed_decimal(&mut s, ms),
        None => push_str(&mut s, "never"),
    }
    assert(s@ =~= status_text(status@));
    s
}

/// The event a search reports: the length of the query in characters (not
/// its text), how many results it gave and how long it took.
pub fn query_event(query: &str, result_count: usize, elapsed_ms: u64, timestamp_ms: u64) -> (event: TelemetryEvent)
    ensures
        event == (TelemetryEvent::QueryCompleted {
            schema_version: 1,
            timestamp_ms,
            query_length: query@.len() as usize,
            result_count,
            elapsed_ms,
        }),
{
    TelemetryEvent::QueryCompleted {
        schema_version: SCHEMA_VERSION,
        timestamp_ms,
        query_length: query.unicode_len(),
        result_count,
        elapsed_ms,
    }
}

} // verus!
