//! Why a call a guest made fails.

use vstd::prelude::*;

verus! {

/// The error numbers the supervisor answers with, by name
#[derive(Debug, Clone, Copy, PartialEq, Eq, Structural)]
pub enum Errno {
    /// Operation not permitted
    Perm,
    /// No such file or directory
    NoEnt,
    /// No such process
    Srch,
    /// The program cannot be run
    NoExec,
    /// Bad file descriptor
    BadF,
    /// No child processes
    Child,
    /// Cannot allocate memory
    NoMem,
    Access,
    /// Try again
    Again,
    Busy,
    Inval,
    /// Too many open files
    NFile,
    Pipe,
    /// Destination address required
    DestAddrReq,
    /// Message too long
    MsgSize,
    /// Address family not supported
    AfNoSupport,
    AddrInUse,
    AddrNotAvail,
    /// Network is unreachable
    NetUnreach,
    /// The socket is connected already
    IsConn,
    NotConn,
    TimedOut,
    ConnRefused,
    /// No route to host
    HostUnreach,
}

} // verus!
