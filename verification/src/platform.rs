use std::time::{Duration, SystemTime, SystemTimeError, UNIX_EPOCH};
use vstd::prelude::*;

use crate::models::{ActionResult, PriorityChange, ProcessSnapshot, SystemSnapshot};
use crate::text::{decimal, decimal_string, decimal_string_u64};

verus! {

/// What the operating system answered to a request to set a niceness.
#[derive(Clone, Debug, PartialEq, Eq)]
pub enum PriorityOutcome {
    /// The niceness was set.
    Applied,
    /// The request failed; the text is the system's error message.
    Failed(String),
    /// This platform has no priority control.
    Unsupported,
}

pub open spec fn unavailable_message() -> Seq<char> {
    "priority control is unavailable on this platform"@
}

pub open spec fn target_range_message() -> Seq<char> {
    "target nice must be between 1 and 19"@
}

pub open spec fn set_message(nice: int) -> Seq<char> {
    "priority set to "@ + decimal(nice)
}

pub open spec fn restored_message(nice: int) -> Seq<char> {
    "priority restored to "@ + decimal(nice)
}

/// Whether `target_nice` is a background niceness that may be requested.
pub open spec fn target_in_range(target_nice: i32) -> bool {
    1 <= target_nice <= 19
}

pub fn target_nice_in_range(target_nice: i32) -> (b: bool)
    ensures
        b == target_in_range(target_nice),
{
    1 <= target_nice && target_nice <= 19
}

/// The report on lowering a process to `target_nice`, given what the system
/// answered. Without priority control the answer is that it is unavailable;
/// a target outside 1..=19 is refused (the system is not asked then, and
/// `outcome` is not looked at); otherwise success reports the new niceness
/// and a failure passes the system's message on.
pub fn lower_priority(target_nice: i32, outcome: PriorityOutcome) -> (r: Result<(bool, String, i32), String>)
    ensures
        match outcome {
            PriorityOutcome::Unsupported => r matches Err(e) && e@ == unavailable_message(),
            PriorityOutcome::Applied => if target_in_range(target_nice) {
                r matches Ok((changed, detail, nice)) && changed && detail@ == set_message(
                    target_nice as int,
                ) && nice == target_nice
            } else {
                r matches Err(e) && e@ == target_range_message()
            },
            PriorityOutcome::Failed(m) => if target_in_range(target_nice) {
                r matches Err(e) && e@ == m@
            } else {
                r matches Err(e) && e@ == target_range_message()
            },
        },
{
    match outcome {
        PriorityOutcome::Unsupported => Err("priority control is unavailable on this platform".to_string()),
        PriorityOutcome::Applied => {
            if !target_nice_in_range(target_nice) {
                return Err("target nice must be between 1 and 19".to_string());
            }
            let mut detail = "priority set to ".to_string();
            let digits = decimal_string(target_nice as i64);
            detail.append(digits.as_str());
            Ok((true, detail, target_nice))
        },
        PriorityOutcome::Failed(message) => {
            if !target_nice_in_range(target_nice) {
                return Err("target nice must be between 1 and 19".to_string());
            }
            Err(message)
        },
    }
}

/// The report on putting a process back to `original_nice`, given what the
/// system answered.
pub fn restore_priority(original_nice: i32, outcome: PriorityOutcome) -> (r: Result<String, String>)
    ensures
        match outcome {
            PriorityOutcome::Unsupported => r matches Err(e) && e@ == unavailable_message(),
            PriorityOutcome::Applied => r matches Ok(d) && d@ == restored_message(original_nice as int),
            PriorityOutcome::Failed(m) => r matches Err(e) && e@ == m@,
        },
{
    match outcome {
        PriorityOutcome::Unsupported => Err("priority control is unavailable on this platform".to_string()),
        PriorityOutcome::Applied => {
            let mut detail = "priority restored to ".to_string();
            let digits = decimal_string(original_nice as i64);
            detail.append(digits.as_str());
            Ok(detail)
        },
        PriorityOutcome::Failed(message) => Err(message),
    }
}

/// The action record for a lowering request and its report.
pub fn lowered_action(change: &PriorityChange, report: Result<(bool, String, i32), String>) -> (a: ActionResult)
    ensures
        a.pid == change.pid,
        a.name == change.name,
        match report {
            Ok((changed, detail, _)) => a.changed == changed && a.detail == detail,
            Err(detail) => !a.changed && a.detail == detail,
        },
{
    match report {
        Ok((changed, detail, _)) => ActionResult { pid: change.pid, name: change.name.clone(), changed, detail },
        Err(detail) => ActionResult { pid: change.pid, name: change.name.clone(), changed: false, detail },
    }
}

/// The action record for a restoring request and its report: changed
/// exactly when the report is a success.
pub fn restored_action(change: &PriorityChange, report: Result<String, String>) -> (a: ActionResult)
    ensures
        a.pid == change.pid,
        a.name == change.name,
        a.changed == report is Ok,
        match report {
            Ok(detail) => a.detail == detail,
            Err(detail) => a.detail == detail,
        },
{
    match report {
        Ok(detail) => ActionResult { pid: change.pid, name: change.name.clone(), changed: true, detail },
        Err(detail) => ActionResult { pid: change.pid, name: change.name.clone(), changed: false, detail },
    }
}

/// `std::time::SystemTime`, a reading of the wall clock, carried through as
/// an opaque value.
#[verifier::external_type_specification]
#[verifier::external_body]
pub struct ExSystemTime(SystemTime);

/// `std::time::SystemTimeError`, returned when a time lies before another.
#[verifier::external_type_specification]
#[verifier::external_body]
pub struct ExSystemTimeError(SystemTimeError);

/// Calls `SystemTime::now`. Nothing is claimed of the reading: it is the
/// time at which the call is made.
#[verifier::external_body]
fn wall_clock_now() -> SystemTime {
    SystemTime::now()
}

/// Calls `SystemTime::duration_since` with `UNIX_EPOCH`. Nothing is claimed:
/// `SystemTime` is opaque here.
#[verifier::external_body]
fn since_unix_epoch(time: &SystemTime) -> Result<Duration, SystemTimeError> {
    time.duration_since(UNIX_EPOCH)
}

/// Calls `Duration::as_secs`. `Duration` is opaque here, so nothing is
/// claimed of the count beyond its type.
#[verifier::external_body]
fn whole_seconds(span: &Duration) -> u64 {
    span.as_secs()
}

/// The text of a capture time: seconds since the Unix epoch in decimal, or
/// `"0"` for a clock set before the epoch.
pub fn timestamp_text(seconds: Option<u64>) -> (s: String)
    ensures
        match seconds {
            Some(n) => s@ == decimal(n as int),
            None => s@ == "0"@,
        },
{
    match seconds {
        Some(n) => decimal_string_u64(n),
        None => "0".to_string(),
    }
}

/// The current wall-clock time as `timestamp_text` writes it. Which second
/// it names rests on the clock.
pub fn timestamp() -> (s: String)
    ensures
        s@ == "0"@ || exists|n: u64| s@ == decimal(n as int),
{
    let now = wall_clock_now();
    let seconds = match since_unix_epoch(&now) {
        Ok(span) => Some(whole_seconds(&span)),
        Err(_) => None,
    };
    timestamp_text(seconds)
}

/// `part` as a share of `total` in hundredths of a percent, rounded down;
/// zero when `total` is zero.
pub open spec fn share_x100(part: u64, total: u64) -> int {
    if total == 0 {
        0
    } else {
        (part as int * 10000) / (total as int)
    }
}

/// `share_x100`, held at `i64::MAX` where it does not fit.
pub fn memory_share_x100(part: u64, total: u64) -> (r: i64)
    ensures
        r == (if share_x100(part, total) > i64::MAX { i64::MAX as int } else { share_x100(part, total) }),
{
    if total == 0 {
        return 0;
    }
    let scaled: u128 = (part as u128) * 10000;
    let share: u128 = scaled / (total as u128);
    if share > 0x7fff_ffff_ffff_ffffu128 {
        0x7fff_ffff_ffff_ffffi64
    } else {
        share as i64
    }
}

impl SystemSnapshot {
    /// A machine sample from raw readings; memory is in bytes.
    pub fn from_readings(
        cpu_percent_x100: i64,
        used_memory: u64,
        total_memory: u64,
        load_average_x100: Option<[i64; 3]>,
        process_count: usize,
        captured_at: String,
    ) -> (s: SystemSnapshot)
        ensures
            s.cpu_percent_x100 == cpu_percent_x100,
            s.memory_percent_x100 == (if share_x100(used_memory, total_memory) > i64::MAX {
                i64::MAX as int
            } else {
                share_x100(used_memory, total_memory)
            }),
            s.load_average_x100 == load_average_x100,
            s.process_count == process_count,
            s.captured_at == captured_at,
    {
        SystemSnapshot {
            cpu_percent_x100,
            memory_percent_x100: memory_share_x100(used_memory, total_memory),
            load_average_x100,
            process_count,
            captured_at,
        }
    }
}

impl ProcessSnapshot {
    /// A process sample from raw readings; memory is in bytes.
    pub fn from_readings(
        pid: u32,
        name: String,
        cpu_percent_x100: i64,
        memory: u64,
        total_memory: u64,
        status: String,
        nice: Option<i32>,
    ) -> (p: ProcessSnapshot)
        ensures
            p.pid == pid,
            p.name == name,
            p.cpu_percent_x100 == cpu_percent_x100,
            p.memory_percent_x100 == (if share_x100(memory, total_memory) > i64::MAX {
                i64::MAX as int
            } else {
                share_x100(memory, total_memory)
            }),
            p.status == status,
            p.nice == nice,
    {
        ProcessSnapshot {
            pid,
            name,
            cpu_percent_x100,
            memory_percent_x100: memory_share_x100(memory, total_memory),
            status,
            nice,
        }
    }
}

} // verus!
