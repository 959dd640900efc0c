//! Grand Central Dispatch is not supported in guests, and says so. Its
//! worker threads are made by the kernel, so the scheduler never runs them:
//! work a guest put on a dispatch queue would happen outside the baton, in
//! real time, and the run would stop being a function of the seed without
//! any sign of it. A guest that submits work to it therefore exits with an
//! error naming the call. Only the guest's own code is held to this: system
//! libraries use it internally all the time.

use vstd::prelude::*;

verus! {

/// Exit status of a guest that used an unsupported facility
pub const EX_UNAVAILABLE: i32 = 69;

/// The calls that submit work, in the order their shims are numbered
pub open spec fn call_name(which: int) -> Seq<char> {
    if which == 0 {
        "dispatch_async"@
    } else if which == 1 {
        "dispatch_async_f"@
    } else if which == 2 {
        "dispatch_after"@
    } else if which == 3 {
        "dispatch_after_f"@
    } else if which == 4 {
        "dispatch_apply"@
    } else if which == 5 {
        "dispatch_apply_f"@
    } else if which == 6 {
        "dispatch_group_async"@
    } else if which == 7 {
        "dispatch_group_async_f"@
    } else if which == 8 {
        "dispatch_barrier_async"@
    } else if which == 9 {
        "dispatch_barrier_async_f"@
    } else if which == 10 {
        "dispatch_group_notify"@
    } else if which == 11 {
        "dispatch_group_notify_f"@
    } else if which == 12 {
        "dispatch_source_create"@
    } else if which == 13 {
        "dispatch_main"@
    } else if which == 14 {
        "dispatch_read"@
    } else if which == 15 {
        "dispatch_write"@
    } else if which == 16 {
        "dispatch_io_create"@
    } else {
        "dispatch"@
    }
}

fn name_of(which: usize) -> (r: &'static str)
    ensures
        r@ == call_name(which as int),
{
    match which {
        0 => "dispatch_async",
        1 => "dispatch_async_f",
        2 => "dispatch_after",
        3 => "dispatch_after_f",
        4 => "dispatch_apply",
        5 => "dispatch_apply_f",
        6 => "dispatch_group_async",
        7 => "dispatch_group_async_f",
        8 => "dispatch_barrier_async",
        9 => "dispatch_barrier_async_f",
        10 => "dispatch_group_notify",
        11 => "dispatch_group_notify_f",
        12 => "dispatch_source_create",
        13 => "dispatch_main",
        14 => "dispatch_read",
        15 => "dispatch_write",
        16 => "dispatch_io_create",
        _ => "dispatch",
    }
}

/// What is said of a call that a guest's own code makes in a run; none where
/// the call is let through.
pub fn refusal(in_run: bool, from_system_library: bool, which: usize) -> (r: Option<String>)
    ensures
        match r {
            Some(line) => in_run && !from_system_library && line@ == call_name(which as int)
                + ": Grand Central Dispatch is not supported; its worker threads run outside the scheduler"@,
            None => !in_run || from_system_library,
        },
{
    if !in_run || from_system_library {
        return None;
    }
    let mut line = String::new();
    line.append(name_of(which));
    line.append(
        ": Grand Central Dispatch is not supported; its worker threads run outside the scheduler",
    );
    Some(line)
}

} // verus!
