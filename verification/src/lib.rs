//! Deterministic execution of AArch64 Mach-O programs: the binary rewriter,
//! the scheduler's state and the virtual world the rewritten programs see.
//!
//! Everything in this crate is verified: it computes on plain values and
//! does no input or output.

pub mod bisect;
pub mod bytes;
pub mod cache;
pub mod coord;
pub mod ddmin;
pub mod decode;
pub mod determinism;
pub mod environ;
pub mod errno;
pub mod fields;
pub mod files;
pub mod frames;
pub mod gcd;
pub mod hash;
pub mod heap;
pub mod hostfs;
pub mod image;
pub mod interpose;
pub mod io;
pub mod kevent;
pub mod keys;
pub mod kq;
pub mod launch;
pub mod link;
pub mod macho;
pub mod manifest;
pub mod mask;
pub mod names;
pub mod net;
pub mod netstate;
pub mod plan;
pub mod poll;
pub mod process;
pub mod replay;
pub mod report;
pub mod rewrite;
pub mod ring;
pub mod rng;
pub mod rooms;
pub mod sched;
pub mod settings;
pub mod shared;
pub mod signals;
pub mod sites;
pub mod sorting;
pub mod stub;
pub mod stubdata;
pub mod suspects;
pub mod text;
pub mod trampoline;
pub mod units;
pub mod vmmap;
pub mod words;
