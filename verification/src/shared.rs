//! Scheduler state shared by every process in a run. Exactly one thread in
//! the whole run holds the baton; everyone else is parked on its own `park`
//! word.
//!
//! The state holds indices only, never pointers.

use vstd::prelude::*;
use crate::determinism::Alarm;
use crate::netstate;
use crate::netstate::{Net, NetView};
use crate::rng;
use crate::rng::Rng;
use crate::signals::SIGNALS;

pub use crate::hash::fnv;

pub mod alarms;
pub mod children;
pub mod choice;
pub mod coming;
pub mod fates;
pub mod faults;
pub mod launcher;
pub mod laws;
pub mod machine;
pub mod reseed;
pub mod schedule;
pub mod sent;
pub mod turns;
pub mod waiting;

verus! {

pub const MAGIC: u64 = 0x0031_4448_5357_5252;

/// Slots are never reused, so these bound what a whole run may create. A
/// server with a thread per request gets through a thousand quickly.
pub const MAX_THREADS: usize = 16384;

pub const MAX_PROCS: usize = 1024;

/// Base of the fixed region every guest sets up. The stubs materialize
/// this address with one `movz`, so it has a single non-zero 16-bit chunk.
/// Low addresses are unreliable: whatever the kernel places first above the
/// dyld shared region varies between launches. Above the GPU carveout
/// (which ends at `0x70_0000_0000`) only hinted mappings appear, growing up
/// from its end.
pub const STUB_BASE: u64 = 0x78_0000_0000;

/// The first page of the region is private to each process; the stubs
/// load the scheduler entry point from `STUB_BASE + SLOT_OFFSET`.
pub const PRIVATE_SIZE: u64 = 0x4000;

pub const SLOT_OFFSET: u32 = 0;

/// Where the trampolines of counter reads load their entry point from
pub const COUNTER_ENTRY_OFFSET: u32 = 8;

/// Where guests map the file
pub const MAP_ADDR: u64 = 0x78_0000_4000;

/// Where the quantum counter stands in the file, behind the magic number
/// and the size
pub const COUNTER_AT: u64 = 16;

/// Offset of the quantum counter from `STUB_BASE`, in reach of an
/// unsigned-offset `ldr`
pub const COUNTER_OFFSET: u32 = 0x4010;

/// Environment variable naming the shared file
pub const SHARED_VAR: &'static str = "REWRITE_SHARED";

/// Environment variable carrying the guest's process index
pub const PROC_VAR: &'static str = "REWRITE_PROC";

/// Switch site recorded when the launcher hands the baton on for a dead process
pub const SITE_PROCESS_DIED: u64 = 0xFFFF_FFFF_FFFF_FFFF;

/// Key a process's threads block on in `waitpid`; never a real address
pub const WAIT_KEY: u64 = 0x7FFF_FFFF_0000;

/// Key of threads parked until a descriptor becomes ready. Readiness
/// crosses processes, so these are woken without regard to `pid`.
pub const IO_KEY: u64 = 0x7FFF_FFFF_0001;

/// Key of sleeping threads: nothing wakes it but the deadline
pub const SLEEP_KEY: u64 = 0x7FFF_FFFF_0002;

/// Key of a restarted process's main thread until its restart delay is
/// over: nothing wakes it but the deadline
pub const RESTART_KEY: u64 = 0x7FFF_FFFF_0003;

/// Pipes and sockets the launcher itself was given (as `dev:ino` pairs):
/// their other end is outside the run, so guests block on them for real.
pub const EXTERNAL_VAR: &'static str = "REWRITE_EXTERNAL";

/// The directory of the guest's virtual host, which its path names are
/// held to, and extra locations every host may touch (`:`-separated)
pub const HOST_ROOT_VAR: &'static str = "REWRITE_HOST_ROOT";

pub const ALLOW_VAR: &'static str = "REWRITE_ALLOW";

pub const RESTART_NEVER: u8 = 0;

/// After a signal or a non-zero exit
pub const RESTART_ON_FAILURE: u8 = 1;

pub const RESTART_ALWAYS: u8 = 2;

pub const NO_LIMIT: u32 = 0xFFFF_FFFF;

/// Real pids the scheduler has condemned and the caller must signal
pub const MAX_PENDING_KILLS: usize = 8;

/// `ProcRec::parent` of the processes the launcher started
pub const NO_PROC: u32 = 0xFFFF_FFFF;

/// First virtual pid; process `i` of the run is `VPID_BASE + i`. Real pids
/// on macOS never exceed 99,999, so the two ranges cannot collide: a pid at
/// or above this is ours and anything below is the kernel's, whoever asks.
/// A virtual pid that leaks into an untranslated kernel call fails with
/// "no such process" instead of naming a stranger. The launcher appears to
/// guests as pid 1.
pub const VPID_BASE: i32 = 100_000;

/// The run's one launcher socket, inherited by every guest at this
/// descriptor: high enough that guest code does not pick it for `dup2`,
/// below the default soft limit of 256.
pub const COORD_FD: i32 = 240;

/// Frame from a guest: `u32 length` of what follows, `u8 type`, `u32 proc`,
/// payload. Reply to `MSG_SPAWN` and `MSG_SPAWNED`: `i32 errno`, `u32
/// length`, payload. Only the baton holder talks, so frames never interleave.
pub const MSG_SPAWN: u8 = 1;

pub const MSG_SPAWNED: u8 = 2;

pub const MSG_REPORT: u8 = 3;

/// Virtual time that a read of the clock costs
pub const PER_READ_NS: u64 = 1_000;

/// Virtual time that handing the baton on costs, unless the run says.
/// Threads run one at a time on one clock, so the cost is kept low: servers
/// with many threads would else get so little done per virtual second that
/// their own timeouts fired.
pub const DEFAULT_SWITCH_NS: u64 = 10_000;

pub const T_RUNNABLE: u32 = 1;

pub const T_RUNNING: u32 = 2;

pub const T_BLOCKED: u32 = 3;

pub const T_EXITED: u32 = 4;

/// Registered by its creator; the process has not attached yet
pub const P_STARTING: u32 = 1;

pub const P_LIVE: u32 = 2;

pub const P_EXITED: u32 = 3;

pub const NO_THREAD: u32 = 0xFFFF_FFFF;

/// What tells the stream of crash times from that of thread choices
pub const FAULT_SEED: u64 = 0xFA17_FA17_FA17_FA17;

/// The virtual pid of a process
pub open spec fn vpid(proc_index: u32) -> i32 {
    (VPID_BASE + proc_index) as i32
}

/// The process a virtual pid names
pub open spec fn proc_named(vpid: i32) -> Option<u32> {
    if VPID_BASE <= vpid < VPID_BASE + MAX_PROCS {
        Some((vpid - VPID_BASE) as u32)
    } else {
        None
    }
}

pub fn vpid_of(proc_index: u32) -> (r: i32)
    requires
        proc_index <= i32::MAX - VPID_BASE,
    ensures
        r == vpid(proc_index),
        r == VPID_BASE + proc_index,
{
    VPID_BASE + proc_index as i32
}

/// The process a virtual pid names; None for a real pid.
pub fn proc_of(vpid: i32) -> (r: Option<u32>)
    ensures
        r == proc_named(vpid),
{
    if vpid >= VPID_BASE && vpid < VPID_BASE + 1024 {
        Some((vpid - VPID_BASE) as u32)
    } else {
        None
    }
}

pub fn is_virtual_pid(pid: i32) -> (r: bool)
    ensures
        r == (pid >= VPID_BASE),
{
    pid >= VPID_BASE
}

/// What the run file says about a process's crashes and restarts. All
/// times are virtual. Zeroed means: never crashed on purpose, never
/// restarted.
#[derive(Clone, Copy, Debug, PartialEq, Eq, Structural)]
pub struct Faults {
    pub restart: u8,
    /// How long the process stays down before its next life may run, drawn
    /// from this range at each death. While it is down its host has no such
    /// process: connections to it are refused.
    pub restart_delay_lo_ns: u64,
    pub restart_delay_hi_ns: u64,
    /// `NO_LIMIT`, or how many restarts are left
    pub restarts_left: u32,
    /// A crash is injected this far into each life, drawn from the range
    /// (both 0: none)
    pub crash_lo_ns: u64,
    pub crash_hi_ns: u64,
    /// `NO_LIMIT`, or how many crashes are left to inject
    pub crashes_left: u32,
}

impl Faults {
    pub open spec fn none() -> Faults {
        Faults {
            restart: RESTART_NEVER,
            restart_delay_lo_ns: 0,
            restart_delay_hi_ns: 0,
            restarts_left: 0,
            crash_lo_ns: 0,
            crash_hi_ns: 0,
            crashes_left: 0,
        }
    }

    /// The ranges are ranges, and their widths are numbers.
    pub open spec fn wf(self) -> bool {
        &&& self.restart_delay_lo_ns <= self.restart_delay_hi_ns
        &&& self.restart_delay_hi_ns - self.restart_delay_lo_ns < u64::MAX
        &&& self.crash_lo_ns <= self.crash_hi_ns
        &&& self.crash_hi_ns - self.crash_lo_ns < u64::MAX
    }
}

impl Default for Faults {
    fn default() -> (r: Self)
        ensures
            r == Faults::none(),
    {
        Faults {
            restart: RESTART_NEVER,
            restart_delay_lo_ns: 0,
            restart_delay_hi_ns: 0,
            restarts_left: 0,
            crash_lo_ns: 0,
            crash_hi_ns: 0,
            crashes_left: 0,
        }
    }
}

#[derive(Clone, Copy, Debug, PartialEq, Eq, Structural)]
pub struct ThreadRec {
    pub state: u32,
    pub pid: u32,
    /// What a blocked thread waits for, namespaced by `pid`: addresses
    /// collide across guests because their layouts are identical.
    pub key: u64,
    /// `pthread_t` in the owning process, for `pthread_join`
    pub pthread: u64,
    /// Condition variable this thread is queued on (0: none) and its
    /// position in that queue; lowest `cond_seq` is signaled first.
    pub cond_key: u64,
    pub cond_seq: u64,
    pub signaled: bool,
    /// Set when the wait ended because `deadline` passed
    pub timed_out: bool,
    /// `ProcRec::outside_wakes` when this thread last looked
    pub wakes_seen: u64,
    /// Virtual time at which a blocked thread gives up waiting (0: never)
    pub deadline: u64,
    /// Bumped by whoever hands this thread the baton
    pub park: u32,
    /// It waits on its park word, as opposed to running in real time.
    pub parked: bool,
}

#[derive(Clone, Copy, Debug, PartialEq, Eq, Structural)]
pub struct ProcRec {
    pub state: u32,
    pub real_pid: i32,
    pub host: u32,
    pub parent: u32,
    /// Raw wait status, valid once `state` is `P_EXITED`
    pub exit_status: i32,
    /// The parent has collected the exit with `waitpid`
    pub reaped: bool,
    /// Another guest sent it a fatal signal: it is as good as dead, though
    /// the launcher has not seen the exit yet
    pub killed: bool,
    /// Bumped by every wake that comes from a thread the scheduler does not
    /// run. Such a wake is not serialized by the baton, so it can land
    /// between a thread's "would I block?" check and its blocking; a thread
    /// that sees the count move backs out and checks again.
    pub outside_wakes: u64,
    /// Some thread of this process runs outside the scheduler (GCD workers)
    pub has_outside_threads: bool,
    pub faults: Faults,
    /// Virtual time at which this life is crashed (0: not)
    pub crash_at: u64,
    /// The process registered to take this one's place, or `NO_PROC`
    pub replaced_by: u32,
    /// The process whose place this one took, or `NO_PROC`
    pub restart_of: u32,
    /// Which run-file entry the launcher started this from (`NO_PROC` for a
    /// guest's own child, which only its parent could restart)
    pub spec: u32,
    /// Its interval timer
    pub alarm: Alarm,
    /// The last child that died since a thread of this process last took the
    /// news of one, or `NO_PROC`
    pub dead_child: u32,
}

impl ThreadRec {
    /// A thread as it is registered: parked and runnable
    pub open spec fn fresh(pid: u32) -> ThreadRec {
        ThreadRec {
            state: T_RUNNABLE,
            pid,
            key: 0,
            pthread: 0,
            cond_key: 0,
            cond_seq: 0,
            signaled: false,
            timed_out: false,
            wakes_seen: 0,
            deadline: 0,
            park: 0,
            parked: false,
        }
    }
}

impl ProcRec {
    /// A process as it is registered
    pub open spec fn fresh(host: u32, parent: u32) -> ProcRec {
        ProcRec {
            state: P_STARTING,
            real_pid: 0,
            host,
            parent,
            exit_status: 0,
            reaped: false,
            killed: false,
            outside_wakes: 0,
            has_outside_threads: false,
            faults: Faults::none(),
            crash_at: 0,
            replaced_by: NO_PROC,
            restart_of: NO_PROC,
            spec: NO_PROC,
            alarm: Alarm { at: 0, interval: 0 },
            dead_child: NO_PROC,
        }
    }

    pub open spec fn wf(self) -> bool {
        &&& self.faults.wf()
        &&& self.crash_at != 0 ==> self.faults.crashes_left > 0
    }
}

pub struct State {
    pub rng: Rng,
    pub quantum_lo: u32,
    pub quantum_hi: u32,
    pub issued: u64,
    pub switches: u64,
    pub expiries: u64,
    pub trace_hash: u64,
    /// Quantum for whichever thread runs next, installed by the receiver
    /// so that hooks can be attributed to processes
    pub pending_quantum: i64,
    /// The run's one virtual clock, in nanoseconds since the run began.
    /// It moves only when a guest reads it or gives up the baton, and jumps
    /// to the next deadline when nothing can run.
    pub clock_ns: u64,
    /// What each hand-off of the baton moves the clock by
    pub switch_ns: u64,
    /// One more than the virtual time from which every random stream starts
    /// over (0: none does)
    reseed_at: u64,
    reseed_with: u64,
    reseeded: bool,
    pub current: u32,
    next_cond_seq: u64,
    /// Crash times come from their own stream, so that adding faults to a
    /// run does not shift the choice of threads
    fault_rng: Rng,
    pub crashes_injected: u64,
    pub restarts: u64,
    pending_kills: Vec<i32>,
    /// Signals each process was sent by another and has not taken yet, one
    /// process after the other
    sig_pending: Vec<bool>,
    /// How often each process was sent each signal, in the same order
    sig_counts: Vec<u64>,
    pub threads: Vec<ThreadRec>,
    pub procs: Vec<ProcRec>,
    pub net: Net,
}

#[verifier::ext_equal]
pub struct StateView {
    pub rng: Seq<u64>,
    pub quantum_lo: u32,
    pub quantum_hi: u32,
    pub issued: u64,
    pub switches: u64,
    pub expiries: u64,
    pub trace_hash: u64,
    pub pending_quantum: i64,
    pub clock_ns: u64,
    pub switch_ns: u64,
    pub reseed_at: u64,
    pub reseed_with: u64,
    pub reseeded: bool,
    pub current: u32,
    pub next_cond_seq: u64,
    pub fault_rng: Seq<u64>,
    pub crashes_injected: u64,
    pub restarts: u64,
    pub kills: Seq<i32>,
    pub sig_pending: Seq<bool>,
    pub sig_counts: Seq<u64>,
    pub threads: Seq<ThreadRec>,
    pub procs: Seq<ProcRec>,
    pub net: NetView,
}

impl View for State {
    type V = StateView;

    closed spec fn view(&self) -> StateView {
        StateView {
            rng: self.rng@,
            quantum_lo: self.quantum_lo,
            quantum_hi: self.quantum_hi,
            issued: self.issued,
            switches: self.switches,
            expiries: self.expiries,
            trace_hash: self.trace_hash,
            pending_quantum: self.pending_quantum,
            clock_ns: self.clock_ns,
            switch_ns: self.switch_ns,
            reseed_at: self.reseed_at,
            reseed_with: self.reseed_with,
            reseeded: self.reseeded,
            current: self.current,
            next_cond_seq: self.next_cond_seq,
            fault_rng: self.fault_rng@,
            crashes_injected: self.crashes_injected,
            restarts: self.restarts,
            kills: self.pending_kills@,
            sig_pending: self.sig_pending@,
            sig_counts: self.sig_counts@,
            threads: self.threads@,
            procs: self.procs@,
            net: self.net@,
        }
    }
}

impl StateView {
    /// A run of no processes yet
    pub open spec fn start(seed: u64, quantum_lo: u32, quantum_hi: u32) -> StateView {
        StateView {
            rng: rng::expanded(seed),
            quantum_lo,
            quantum_hi,
            issued: 0,
            switches: 0,
            expiries: 0,
            trace_hash: 0xCBF2_9CE4_8422_2325,
            pending_quantum: 0,
            clock_ns: 0,
            switch_ns: DEFAULT_SWITCH_NS,
            reseed_at: 0,
            reseed_with: 0,
            reseeded: false,
            current: NO_THREAD,
            next_cond_seq: 1,
            fault_rng: rng::expanded(seed ^ FAULT_SEED),
            crashes_injected: 0,
            restarts: 0,
            kills: Seq::empty(),
            sig_pending: Seq::empty(),
            sig_counts: Seq::empty(),
            threads: Seq::empty(),
            procs: Seq::empty(),
            net: NetView::empty(),
        }
    }

    pub open spec fn wf(self) -> bool {
        &&& self.threads.len() <= MAX_THREADS
        &&& self.procs.len() <= MAX_PROCS
        &&& self.kills.len() <= MAX_PENDING_KILLS
        &&& self.quantum_lo <= self.quantum_hi
        &&& self.sig_pending.len() == SIGNALS * self.procs.len()
        &&& self.sig_counts.len() == SIGNALS * self.procs.len()
        &&& forall|i: int| 0 <= i < self.procs.len() ==> (#[trigger] self.procs[i]).wf()
    }

    pub open spec fn with_thread(self, i: int, t: ThreadRec) -> StateView {
        StateView { threads: self.threads.update(i, t), ..self }
    }

    pub open spec fn with_proc(self, i: int, p: ProcRec) -> StateView {
        StateView { procs: self.procs.update(i, p), ..self }
    }

    /// With the next process
    pub open spec fn proc_added(self, host: u32, parent: u32) -> StateView {
        StateView {
            procs: self.procs.push(ProcRec::fresh(host, parent)),
            sig_pending: self.sig_pending + Seq::new(SIGNALS as nat, |i: int| false),
            sig_counts: self.sig_counts + Seq::new(SIGNALS as nat, |i: int| 0u64),
            ..self
        }
    }

    /// With the next thread
    pub open spec fn thread_added(self, pid: u32) -> StateView {
        StateView { threads: self.threads.push(ThreadRec::fresh(pid)), ..self }
    }
}

impl State {
    pub closed spec fn wf(self) -> bool {
        self@.wf() && self.net.wf()
    }

    /// What well-formedness says of what is visible
    pub proof fn lemma_wf(self)
        requires
            self.wf(),
        ensures
            self@.wf(),
            self@.net.wf(),
    {
        self.net.lemma_wf();
    }

    /// The state of a run before its first process
    pub fn new(seed: u64, quantum_lo: u32, quantum_hi: u32) -> (r: State)
        requires
            quantum_lo <= quantum_hi,
        ensures
            r.wf(),
            r@ == StateView::start(seed, quantum_lo, quantum_hi),
    {
        let r = State {
            rng: Rng::seed_from_u64(seed),
            quantum_lo,
            quantum_hi,
            issued: 0,
            switches: 0,
            expiries: 0,
            trace_hash: 0xCBF2_9CE4_8422_2325,
            pending_quantum: 0,
            clock_ns: 0,
            switch_ns: DEFAULT_SWITCH_NS,
            reseed_at: 0,
            reseed_with: 0,
            reseeded: false,
            current: NO_THREAD,
            next_cond_seq: 1,
            fault_rng: Rng::seed_from_u64(seed ^ FAULT_SEED),
            crashes_injected: 0,
            restarts: 0,
            pending_kills: Vec::new(),
            sig_pending: Vec::new(),
            sig_counts: Vec::new(),
            threads: Vec::new(),
            procs: Vec::new(),
            net: Net::new(),
        };
        assert(r@ =~= StateView::start(seed, quantum_lo, quantum_hi));
        r
    }

    pub fn add_proc(&mut self, host: u32, parent: u32) -> (r: u32)
        requires
            old(self).wf(),
            old(self)@.procs.len() < MAX_PROCS,
        ensures
            final(self).wf(),
            r == old(self)@.procs.len(),
            final(self)@ == old(self)@.proc_added(host, parent),
    {
        let pid: usize = self.procs.len();
        self.procs.push(
            ProcRec {
                state: P_STARTING,
                real_pid: 0,
                host,
                parent,
                exit_status: 0,
                reaped: false,
                killed: false,
                outside_wakes: 0,
                has_outside_threads: false,
                faults: Faults::default(),
                crash_at: 0,
                replaced_by: NO_PROC,
                restart_of: NO_PROC,
                spec: NO_PROC,
                alarm: Alarm::new(),
                dead_child: NO_PROC,
            },
        );
        let mut none: Vec<bool> = vec![false; SIGNALS];
        self.sig_pending.append(&mut none);
        let mut zero: Vec<u64> = vec![0; SIGNALS];
        self.sig_counts.append(&mut zero);
        assert(self@ =~= old(self)@.proc_added(host, parent));
        pid as u32
    }

    /// Register a thread of `pid`; it starts parked and runnable. Slots are
    /// never reused, so ids are a function of creation order.
    pub fn add_thread(&mut self, pid: u32) -> (r: usize)
        requires
            old(self).wf(),
            old(self)@.threads.len() < MAX_THREADS,
        ensures
            final(self).wf(),
            r == old(self)@.threads.len(),
            final(self)@ == old(self)@.thread_added(pid),
    {
        let id: usize = self.threads.len();
        self.threads.push(
            ThreadRec {
                state: T_RUNNABLE,
                pid,
                key: 0,
                pthread: 0,
                cond_key: 0,
                cond_seq: 0,
                signaled: false,
                timed_out: false,
                wakes_seen: 0,
                deadline: 0,
                park: 0,
                parked: false,
            },
        );
        id
    }
}

impl State {
    /// Thread `id` waits on its park word now, or runs on.
    pub fn set_parked(&mut self, id: usize, parked: bool)
        requires
            old(self).wf(),
            id < old(self)@.threads.len(),
        ensures
            final(self).wf(),
            final(self)@ == old(self)@.with_thread(
                id as int,
                ThreadRec { parked, ..old(self)@.threads[id as int] },
            ),
    {
        let mut t: ThreadRec = self.threads[id];
        t.parked = parked;
        self.threads.set(id, t);
    }

    /// Whether every thread waits on its park word
    pub fn all_parked(&self) -> (r: bool)
        ensures
            r == forall|i: int|
                0 <= i < self@.threads.len() ==> (#[trigger] self@.threads[i]).parked,
    {
        let mut i: usize = 0;
        while i < self.threads.len()
            invariant
                i <= self@.threads.len(),
                forall|k: int| 0 <= k < i ==> (#[trigger] self@.threads[k]).parked,
            decreases self@.threads.len() - i,
        {
            if !self.threads[i].parked {
                assert(!self@.threads[i as int].parked);
                return false;
            }
            i += 1;
        }
        true
    }
}

/// Outcome of giving up the baton
#[derive(Debug, Clone, Copy, PartialEq, Eq, Structural)]
pub enum Handoff {
    /// The caller was chosen again
    Stay,
    /// `to` now holds the baton and must be woken; `seen` is the caller's
    /// park word at the time of the switch, to wait on
    Switch { to: usize, seen: u32 },
    /// Nothing can run
    Idle,
}

} // verus!
