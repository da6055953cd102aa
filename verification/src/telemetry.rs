//! Versioned telemetry events, the sink that receives them, and the
//! human-readable line each event is shown as.
use vstd::prelude::*;

use crate::text::push_char;
use std::time::{Duration, SystemTime, SystemTimeError};

verus! {

/// How telemetry is delivered: as human-readable lines, as JSON Lines, or
/// not at all.
#[derive(Debug, Clone, Copy, PartialEq, Eq, Structural)]
pub enum OutputMode {
    Human,
    Json,
    Silent,
}

/// The schema version every event carries.
pub const SCHEMA_VERSION: u8 = 1;

/// One telemetry event. Events carry counts, durations, ids and fixed state
/// and reason labels, never filenames, paths or query text.
#[derive(Debug)]
pub enum TelemetryEvent {
    HealthChanged {
        schema_version: u8,
        timestamp_ms: u64,
        state: &'static str,
        reason: Option<&'static str>,
    },
    ScanStarted { schema_version: u8, timestamp_ms: u64, root_id: i64 },
    ScanProgress {
        schema_version: u8,
        timestamp_ms: u64,
        root_id: i64,
        entries_seen: u64,
        errors: u64,
        elapsed_ms: u64,
        entries_per_second: u64,
    },
    ScanCompleted {
        schema_version: u8,
        timestamp_ms: u64,
        root_id: i64,
        entries_seen: u64,
        removed_entries: u64,
        errors: u64,
        elapsed_ms: u64,
        synchronized: bool,
    },
    QueryCompleted {
        schema_version: u8,
        timestamp_ms: u64,
        query_length: usize,
        result_count: usize,
        elapsed_ms: u64,
    },
}

/// Where telemetry goes.
pub struct EventSink {
    mode: OutputMode,
}

impl EventSink {
    pub closed spec fn spec_mode(&self) -> OutputMode {
        self.mode
    }

    pub fn new(mode: OutputMode) -> (sink: Self)
        ensures
            sink.spec_mode() == mode,
    {
        EventSink { mode }
    }

    pub fn mode(&self) -> (mode: OutputMode)
        ensures
            mode == self.spec_mode(),
    {
        self.mode
    }
}

// ---------------------------------------------------------------------------
// Clock.
// ---------------------------------------------------------------------------

#[verifier::external_type_specification]
#[verifier::external_body]
pub struct ExSystemTime(std::time::SystemTime);

#[verifier::external_type_specification]
#[verifier::external_body]
pub struct ExSystemTimeError(std::time::SystemTimeError);

/// `SystemTime::now`: a reading of the system clock. Nothing is stated of
/// it: it depends on the clock.
#[verifier::external_body]
fn system_now() -> SystemTime {
    SystemTime::now()
}

/// `SystemTime::duration_since(UNIX_EPOCH)`: the time since the epoch, or
/// an error for a reading before it. Nothing is stated of which comes back:
/// it depends on the reading, whose contents are not visible here.
#[verifier::external_body]
fn since_unix_epoch(reading: &SystemTime) -> Result<Duration, SystemTimeError> {
    reading.duration_since(std::time::UNIX_EPOCH)
}

/// `Duration::as_secs`: the whole seconds of a duration. Nothing is stated
/// of them: the duration's contents are not visible here.
#[verifier::external_body]
fn whole_seconds(d: &Duration) -> u64 {
    d.as_secs()
}

/// `Duration::subsec_nanos`: the nanoseconds past the whole seconds, which
/// the standard library documents as below one billion.
#[verifier::external_body]
fn subsec_nanos(d: &Duration) -> (nanos: u32)
    ensures
        nanos < 1_000_000_000,
{
    d.subsec_nanos()
}

/// Reads the system clock as whole seconds and nanoseconds since the
/// epoch; a clock set before the epoch reads as zero.
fn clock_since_epoch() -> (parts: (u64, u32))
    ensures
        parts.1 < 1_000_000_000,
{
    let reading = system_now();
    match since_unix_epoch(&reading) {
        Ok(elapsed) => (whole_seconds(&elapsed), subsec_nanos(&elapsed)),
        Err(_) => (0, 0),
    }
}

/// Milliseconds since the epoch from whole seconds and sub-second
/// nanoseconds, truncated to 64 bits.
pub fn millis_from_parts(secs: u64, nanos: u32) -> (ms: u64)
    ensures
        ms == (secs * 1000 + nanos / 1_000_000) as u64,
{
    let total: u128 = secs as u128 * 1000 + (nanos / 1_000_000) as u128;
    total as u64
}

/// Milliseconds since the Unix epoch, by the system clock.
pub fn now_ms() -> u64 {
    let (secs, nanos) = clock_since_epoch();
    millis_from_parts(secs, nanos)
}

/// Nanoseconds since the epoch from whole seconds and sub-second
/// nanoseconds, clamped to `i64::MAX`.
pub fn nanos_from_parts(secs: u64, nanos: u32) -> (n: i64)
    ensures
        n == if secs * 1_000_000_000 + nanos <= i64::MAX {
            secs * 1_000_000_000 + nanos
        } else {
            i64::MAX as int
        },
{
    let total: u128 = secs as u128 * 1_000_000_000 + nanos as u128;
    if total <= i64::MAX as u128 {
        total as i64
    } else {
        i64::MAX
    }
}

/// A scan generation: nanoseconds since the epoch by the system clock,
/// clamped to `i64::MAX`.
pub fn generation() -> (g: i64)
    ensures
        g >= 0,
{
    let (secs, nanos) = clock_since_epoch();
    nanos_from_parts(secs, nanos)
}

// ---------------------------------------------------------------------------
// Human-readable lines.
// ---------------------------------------------------------------------------

pub open spec fn digit_char(d: nat) -> char {
    if d == 0 {
        '0'
    } else if d == 1 {
        '1'
    } else if d == 2 {
        '2'
    } else if d == 3 {
        '3'
    } else if d == 4 {
        '4'
    } else if d == 5 {
        '5'
    } else if d == 6 {
        '6'
    } else if d == 7 {
        '7'
    } else if d == 8 {
        '8'
    } else {
        '9'
    }
}

/// The decimal digits of a natural number, most significant first.
pub open spec fn decimal(n: nat) -> Seq<char>
    decreases n,
{
    if n < 10 {
        seq![digit_char(n)]
    } else {
        decimal(n / 10).push(digit_char(n % 10))
    }
}

/// A signed integer in decimal, with a leading `-` when negative.
pub open spec fn signed_decimal(n: int) -> Seq<char> {
    if n < 0 {
        seq!['-'] + decimal((-n) as nat)
    } else {
        decimal(n as nat)
    }
}

pub open spec fn bool_text(b: bool) -> Seq<char> {
    if b {
        seq!['t', 'r', 'u', 'e']
    } else {
        seq!['f', 'a', 'l', 's', 'e']
    }
}

fn digit(d: u64) -> (c: char)
    requires
        d < 10,
    ensures
        c == digit_char(d as nat),
{
    if d == 0 {
        '0'
    } else if d == 1 {
        '1'
    } else if d == 2 {
        '2'
    } else if d == 3 {
        '3'
    } else if d == 4 {
        '4'
    } else if d == 5 {
        '5'
    } else if d == 6 {
        '6'
    } else if d == 7 {
        '7'
    } else if d == 8 {
        '8'
    } else {
        '9'
    }
}

/// Appends the decimal digits of `n`.
pub fn push_decimal(s: &mut String, n: u64)
    ensures
        final(s)@ == old(s)@ + decimal(n as nat),
    decreases n,
{
    if n >= 10 {
        push_decimal(s, n / 10);
    }
    push_char(s, digit(n % 10));
    proof {
        if n >= 10 {
            assert(final(s)@ =~= old(s)@ + decimal(n as nat));
        } else {
            assert(final(s)@ =~= old(s)@ + decimal(n as nat));
        }
    }
}

/// Appends a signed integer in decimal.
pub fn push_signed_decimal(s: &mut String, n: i64)
    ensures
        final(s)@ == old(s)@ + signed_decimal(n as int),
{
    if n < 0 {
        push_char(s, '-');
        let magnitude: u64 = (-(n + 1)) as u64 + 1;
        push_decimal(s, magnitude);
        assert(final(s)@ =~= old(s)@ + signed_decimal(n as int));
    } else {
        push_decimal(s, n as u64);
    }
}

pub(crate) fn push_str(s: &mut String, t: &str)
    ensures
        final(s)@ == old(s)@ + t@,
{
    s.append(t);
}

/// The line a human-readable sink prints for an event.
pub open spec fn human_text(event: TelemetryEvent) -> Seq<char> {
    match event {
        TelemetryEvent::HealthChanged { state, reason, .. } => match reason {
            Some(r) => "health: "@ + state@ + " ("@ + r@ + ")"@,
            None => "health: "@ + state@,
        },
        TelemetryEvent::ScanStarted { root_id, .. } => "indexing root "@ + signed_decimal(
            root_id as int,
        ) + "..."@,
        TelemetryEvent::ScanProgress { entries_seen, errors, entries_per_second, .. } =>
            "indexed "@ + decimal(entries_seen as nat) + " entries ("@ + decimal(
            entries_per_second as nat,
        ) + "/s, "@ + decimal(errors as nat) + " errors)"@,
        TelemetryEvent::ScanCompleted {
            entries_seen,
            removed_entries,
            errors,
            elapsed_ms,
            synchronized,
            ..
        } => "scan complete: "@ + decimal(entries_seen as nat) + " entries, "@ + decimal(
            removed_entries as nat,
        ) + " removed, "@ + decimal(errors as nat) + " errors, "@ + decimal(elapsed_ms as nat)
            + " ms, synchronized="@ + bool_text(synchronized),
        TelemetryEvent::QueryCompleted { result_count, elapsed_ms, .. } => "query: "@ + decimal(
            result_count as nat,
        ) + " results in "@ + decimal(elapsed_ms as nat) + " ms"@,
    }
}

/// The line a human-readable sink prints for an event.
pub fn human_message(event: &TelemetryEvent) -> (line: String)
    ensures
        line@ == human_text(*event),
{
    let mut s = String::new();
    match event {
        TelemetryEvent::HealthChanged { state, reason, .. } => {
            push_str(&mut s, "health: ");
            push_str(&mut s, state);
            match reason {
                Some(r) => {
                    push_str(&mut s, " (");
                    push_str(&mut s, r);
                    push_str(&mut s, ")");
                },
                None => {},
            }
        },
        TelemetryEvent::ScanStarted { root_id, .. } => {
            push_str(&mut s, "indexing root ");
            push_signed_decimal(&mut s, *root_id);
            push_str(&mut s, "...");
        },
        TelemetryEvent::ScanProgress { entries_seen, errors, entries_per_second, .. } => {
            push_str(&mut s, "indexed ");
            push_decimal(&mut s, *entries_seen);
            push_str(&mut s, " entries (");
            push_decimal(&mut s, *entries_per_second);
            push_str(&mut s, "/s, ");
            push_decimal(&mut s, *errors);
            push_str(&mut s, " errors)");
        },
        TelemetryEvent::ScanCompleted {
            entries_seen,
            removed_entries,
            errors,
            elapsed_ms,
            synchronized,
            ..
        } => {
            push_str(&mut s, "scan complete: ");
            push_decimal(&mut s, *entries_seen);
            push_str(&mut s, " entries, ");
            push_decimal(&mut s, *removed_entries);
            push_str(&mut s, " removed, ");
            push_decimal(&mut s, *errors);
            push_str(&mut s, " errors, ");
            push_decimal(&mut s, *elapsed_ms);
            push_str(&mut s, " ms, synchronized=");
            if *synchronized {
                push_str(&mut s, "true");
                proof {
                    reveal_strlit("true");
                }
            } else {
                push_str(&mut s, "false");
                proof {
                    reveal_strlit("false");
                }
            }
        },
        TelemetryEvent::QueryCompleted { result_count, elapsed_ms, .. } => {
            push_str(&mut s, "query: ");
            push_decimal(&mut s, *result_count as u64);
            push_str(&mut s, " results in ");
            push_decimal(&mut s, *elapsed_ms);
            push_str(&mut s, " ms");
        },
    }
    assert(s@ =~= human_text(*event));
    s
}

} // verus!
