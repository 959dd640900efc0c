# derp

Runs programs deterministically: every guest thread is parked but one, and
which runs next, for how many hook events, at what virtual time, and with what
randomness is a function of a seed. Programs are arm64 Mach-O executables; the
rewriter hooks their branches, calls and a share of their loads and stores, so
that a thread can be stopped after a number of hook events that repeats from
run to run. Several processes on virtual hosts can run under one scheduler,
with a network of their own.

`src/` is the library. It is written in Verus, and every function states what
it returns and changes. `app/` is the `derp` command around it: files,
processes, sockets and the command line. `tests/` runs the library.

## The library

* Machine code and images: `decode`, `stub`, `trampoline`, `macho`, `image`,
  `sites`, `rooms`, `rewrite`, `stubdata`, `link`, `cache`.
* The run: `shared` (the scheduler's state: threads, processes, the virtual
  clock, faults), `netstate` (the virtual network), `ring`, `rng`, `hash`.
* The launcher: `settings`, `manifest`, `plan`, `environ`, `frames`, `coord`,
  `launch`, `report`.
* What a guest's calls become: `sched`, `interpose`, `net`, `names`, `poll`,
  `kq`, `kevent`, `io`, `files`, `hostfs`, `process`, `signals`, `gcd`,
  `determinism`, `heap`, `vmmap`.
* Looking into a failing seed: `replay`, `bisect`, `ddmin`, `keys`, `mask`,
  `suspects`.
* Texts and bytes: `text`, `words`, `units`, `fields`, `bytes`, `sorting`.

Contracts are stated over views: a `State` is a `StateView` of sequences, a
`Net` a `NetView`, a text a sequence of characters. Public proof functions
state what holds across operations, such as that a frame reads back
(`frames::a_frame_reads_back`), that live blocks of a heap never overlap
(`heap::laws::live_blocks_never_overlap`) or that just one thread runs
(`shared::laws::one_thread_runs`).

## The command

`derp run --manifest FILE` runs what a run file (YAML) describes; `derp repeat`
runs it many times and compares; `derp bisect` and `derp suspects` look into a
seed that fails. `derp` without arguments lists the rest.

The library that is injected into guests, and the memory it shares with the
launcher, are not part of the command: it looks for
`librewrite_supervisor.dylib` next to itself.
