//! What the launcher asks of the scheduler.

use vstd::prelude::*;
use super::{State, StateView, NO_PROC, P_EXITED, P_STARTING};
use crate::netstate;
use crate::netstate::{NetCounts, NetView, MAX_HOSTS};

verus! {

/// What a report says of the schedule
#[derive(Debug, Clone, Copy, PartialEq, Eq, Structural)]
pub struct Counts {
    pub switches: u64,
    pub expiries: u64,
    pub schedule_hash: u64,
    pub threads: u32,
    pub crashes_injected: u64,
    pub restarts: u64,
    pub clock_ns: u64,
}

impl StateView {
    pub open spec fn counts(self) -> Counts {
        Counts {
            switches: self.switches,
            expiries: self.expiries,
            schedule_hash: self.trace_hash,
            threads: self.threads.len() as u32,
            crashes_injected: self.crashes_injected,
            restarts: self.restarts,
            clock_ns: self.clock_ns,
        }
    }
}

impl State {
    pub fn counts(&self) -> (r: Counts)
        ensures
            r == self@.counts(),
    {
        Counts {
            switches: self.switches,
            expiries: self.expiries,
            schedule_hash: self.trace_hash,
            threads: self.threads.len() as u32,
            crashes_injected: self.crashes_injected,
            restarts: self.restarts,
            clock_ns: self.clock_ns,
        }
    }

    pub fn net_counts(&self) -> (r: NetCounts)
        ensures
            r == self@.net.counts(),
    {
        self.net.counts()
    }

    /// How many processes the run has had
    pub fn proc_count(&self) -> (r: usize)
        ensures
            r == self@.procs.len(),
    {
        self.procs.len()
    }

    /// How many threads
    pub fn thread_count(&self) -> (r: usize)
        ensures
            r == self@.threads.len(),
    {
        self.threads.len()
    }

    pub fn clock(&self) -> (r: u64)
        ensures
            r == self@.clock_ns,
    {
        self.clock_ns
    }

    /// It has been registered and has not attached yet.
    pub fn is_starting(&self, pid: u32) -> (r: bool)
        requires
            pid < self@.procs.len(),
        ensures
            r == (self@.procs[pid as int].state == P_STARTING),
    {
        self.procs[pid as usize].state == P_STARTING
    }

    pub fn has_exited(&self, pid: u32) -> (r: bool)
        requires
            pid < self@.procs.len(),
        ensures
            r == (self@.procs[pid as int].state == P_EXITED),
    {
        self.procs[pid as usize].state == P_EXITED
    }

    /// The process registered to take `pid`'s place, for the launcher to
    /// spawn
    pub fn replacement_of(&self, pid: u32) -> (r: Option<u32>)
        requires
            pid < self@.procs.len(),
        ensures
            r == (if self@.procs[pid as int].replaced_by != NO_PROC {
                Some(self@.procs[pid as int].replaced_by)
            } else {
                None
            }),
    {
        let next: u32 = self.procs[pid as usize].replaced_by;
        if next != NO_PROC {
            Some(next)
        } else {
            None
        }
    }

    /// Delay for traffic between different hosts, in virtual time.
    pub fn set_net_latency(&mut self, ns: u64)
        requires
            old(self).wf(),
        ensures
            final(self).wf(),
            final(self)@ == (StateView {
                net: NetView { latency_ns: ns, ..old(self)@.net },
                ..old(self)@
            }),
    {
        self.net.set_latency(ns);
    }

    /// The next host
    pub fn add_host(&mut self, name: &[u8]) -> (r: u32)
        requires
            old(self).wf(),
            old(self)@.net.hosts.len() < MAX_HOSTS,
        ensures
            final(self).wf(),
            r == old(self)@.net.hosts.len(),
            final(self)@ == (StateView {
                net: old(self)@.net.with_host(name@),
                ..old(self)@
            }),
    {
        self.net.add_host(name)
    }
}

} // verus!
