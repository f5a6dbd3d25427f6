//! Probe logic: turning raw operating-system readings into well-formed
//! values.
//!
//! The operating-system calls themselves (foreground window handle, window
//! title buffer, process module path, input tick counters) live outside the
//! library; the functions here take their results as plain values and are
//! total: every failure of the underlying calls degrades to a sentinel
//! value, never to an error.

use vstd::prelude::*;
use vstd::string::StrSliceExecFns;
use crate::text::{last_component, opt_str_view};

verus! {

/// What the idle query reports: the whole seconds elapsed between the last
/// input tick and the current tick, zero when the underlying call failed
/// (`ok == false`) or when the tick counter wrapped around (`now < last`).
pub open spec fn idle_seconds_of(ok: bool, now_ticks: u64, last_ticks: u64) -> int {
    if ok && now_ticks >= last_ticks {
        (now_ticks - last_ticks) / 1000
    } else {
        0
    }
}

/// Idle time in whole seconds from the raw last-input and current tick
/// counters (both in milliseconds). `ok` tells whether the last-input query
/// succeeded; on failure the result is `0` ("no evidence of idleness"), and
/// a wrapped-around counter (`now_ticks < last_ticks`) is clamped to `0`
/// rather than producing a huge spurious difference.
pub fn idle_seconds_from_ticks(ok: bool, now_ticks: u32, last_ticks: u32) -> (r: u64)
    ensures
        r == idle_seconds_of(ok, now_ticks as u64, last_ticks as u64),
{
    if ok && now_ticks >= last_ticks {
        ((now_ticks - last_ticks) as u64) / 1000
    } else {
        0
    }
}

/// Idle time never decreases while no new input arrives: with the same
/// last-input tick, a later current tick reports at least as many idle
/// seconds.
pub proof fn lemma_idle_seconds_monotonic(ok: bool, now1: u64, now2: u64, last: u64)
    requires
        now1 <= now2,
    ensures
        idle_seconds_of(ok, now1, last) <= idle_seconds_of(ok, now2, last),
{
    if ok && now1 >= last {
        assert((now1 - last) / 1000 <= (now2 - last) / 1000) by (nonlinear_arith)
            requires
                last <= now1 <= now2,
        ;
    }
}

/// A snapshot of the foreground application: the owning process id, the
/// executable file name (or the `"unknown.exe"` sentinel when it could not
/// be resolved), and the window title.
pub struct ForegroundInfo {
    pub process_id: u32,
    pub exe: String,
    pub window_title: String,
}

/// The executable name the snapshot reports: the file-name component of
/// the module path when one could be read, the whole path when it has no
/// usable file-name component, and the `"unknown.exe"` sentinel when the
/// owning process could not be identified (`pid == 0`) or not be queried
/// (`exe_path == None`).
pub open spec fn exe_name_of(pid: u32, exe_path: Option<Seq<char>>) -> Seq<char> {
    match exe_path {
        Some(p) => if pid == 0 {
            "unknown.exe"@
        } else {
            let name = last_component(p);
            if name.len() > 0 {
                name
            } else {
                p
            }
        },
        None => "unknown.exe"@,
    }
}

/// Builds the foreground snapshot from the raw probe readings: the owning
/// process id (`0` when none was resolved), the window title already
/// decoded from its bounded buffer, and the executable's module path when
/// the process could be opened and queried. Total: every failure of the
/// underlying calls degrades to the `"unknown.exe"` sentinel, never to an
/// error.
pub fn build_snapshot(process_id: u32, window_title: String, exe_path: Option<&str>) -> (r:
    ForegroundInfo)
    ensures
        r.process_id == process_id,
        r.window_title@ == window_title@,
        r.exe@ == exe_name_of(process_id, opt_str_view(exe_path)),
{
    let exe: String;
    match exe_path {
        Some(p) => {
            if process_id == 0 {
                exe = "unknown.exe".to_owned();
            } else {
                let name = last_path_component_or_whole(p);
                exe = name;
            }
        },
        None => {
            exe = "unknown.exe".to_owned();
        },
    }
    ForegroundInfo { process_id, exe, window_title }
}

/// The file-name component of `p`, or all of `p` when nothing follows its
/// last separator.
fn last_path_component_or_whole(p: &str) -> (r: String)
    ensures
        r@ == ({
            let name = last_component(p@);
            if name.len() > 0 {
                name
            } else {
                p@
            }
        }),
{
    let name = crate::text::last_path_component(p);
    if name.as_str().unicode_len() > 0 {
        name
    } else {
        p.to_owned()
    }
}

} // verus!
