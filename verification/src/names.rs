//! What a guest can learn about where it is: its host's name, the addresses
//! of the run's virtual hosts, and its interfaces. Names that are not
//! virtual hosts go to the real resolver.

use vstd::prelude::*;
use crate::bytes::same;
use crate::environ;
use crate::macho;
use crate::netstate;
use crate::netstate::{Net, NetView, LOOPBACK, SUBNET_MASK};
use crate::text;
use crate::text::{chars_of, parse_unsigned, push_decimal, same_chars, same_text, split};

verus! {

pub const AF_UNSPEC: i32 = 0;

pub const AF_INET: i32 = 2;

pub const SOCK_STREAM: i32 = 1;

pub const SOCK_DGRAM: i32 = 2;

pub const IPPROTO_TCP: i32 = 6;

pub const IPPROTO_UDP: i32 = 17;

pub const AI_PASSIVE: i32 = 0x1;

pub const AI_CANONNAME: i32 = 0x2;

pub const AI_NUMERICHOST: i32 = 0x4;

pub const IFF_UP: u32 = 0x1;

pub const IFF_BROADCAST: u32 = 0x2;

pub const IFF_LOOPBACK: u32 = 0x8;

pub const IFF_RUNNING: u32 = 0x40;

pub const IFF_MULTICAST: u32 = 0x8000;

/// An IPv4 address as it is written
#[verifier::opaque]
pub open spec fn dotted(ip: u32) -> Seq<char> {
    text::decimal((ip / 0x100_0000) as nat) + seq!['.'] + (text::decimal(
        (ip / 0x1_0000 % 0x100) as nat,
    ) + seq!['.'] + (text::decimal((ip / 0x100 % 0x100) as nat) + seq!['.'] + text::decimal(
        (ip % 0x100) as nat,
    )))
}

proof fn lemma_no_dot(n: nat)
    ensures
        !text::decimal(n).contains('.'),
{
    text::digits_read_back(n, 10);
    let d = text::decimal(n);
    if d.contains('.') {
        let i = choose|i: int| 0 <= i < d.len() && d[i] == '.';
        assert(text::digits(n, 10)[i] == '.');
    }
}

proof fn lemma_small(n: nat)
    requires
        n < 0x100,
    ensures
        text::unsigned_value(text::decimal(n), 10, 255) == Some(n),
{
    text::digits_read_back(n, 10);
    assert(text::digits(n, 10)[0] != '+');
}

/// The pieces of an address as it is written
proof fn lemma_dotted(ip: u32)
    ensures
        ({
            let p = text::pieces(dotted(ip), '.');
            &&& p.len() == 4
            &&& text::unsigned_value(p[0], 10, 255) == Some((ip / 0x100_0000) as nat)
            &&& text::unsigned_value(p[1], 10, 255) == Some((ip / 0x1_0000 % 0x100) as nat)
            &&& text::unsigned_value(p[2], 10, 255) == Some((ip / 0x100 % 0x100) as nat)
            &&& text::unsigned_value(p[3], 10, 255) == Some((ip % 0x100) as nat)
        }),
{
    reveal(dotted);
    let a = (ip / 0x100_0000) as nat;
    let b = (ip / 0x1_0000 % 0x100) as nat;
    let c = (ip / 0x100 % 0x100) as nat;
    let d = (ip % 0x100) as nat;
    lemma_no_dot(a);
    lemma_no_dot(b);
    lemma_no_dot(c);
    lemma_no_dot(d);
    lemma_small(a);
    lemma_small(b);
    lemma_small(c);
    lemma_small(d);
    let s3 = text::decimal(d);
    let s2 = text::decimal(c) + seq!['.'] + s3;
    let s1 = text::decimal(b) + seq!['.'] + s2;
    text::lemma_first_piece(text::decimal(a), '.', s1);
    text::lemma_first_piece(text::decimal(b), '.', s2);
    text::lemma_first_piece(text::decimal(c), '.', s3);
    text::lemma_no_separator(s3, '.');
}

fn write_dotted(ip: u32) -> (r: String)
    ensures
        r@ == dotted(ip),
{
    proof {
        reveal(dotted);
    }
    let mut out = String::new();
    push_decimal(&mut out, (ip / 0x100_0000) as u64);
    out.push('.');
    push_decimal(&mut out, (ip / 0x1_0000 % 0x100) as u64);
    out.push('.');
    push_decimal(&mut out, (ip / 0x100 % 0x100) as u64);
    out.push('.');
    push_decimal(&mut out, (ip % 0x100) as u64);
    assert(out@ =~= dotted(ip));
    out
}

/// The four numbers up to 255 that stand between dots, as one number
#[verifier::opaque]
spec fn joined(s: Seq<char>) -> Option<u32> {
    let p = text::pieces(s, '.');
    if p.len() != 4 {
        None
    } else {
        match (
            text::unsigned_value(p[0], 10, 255),
            text::unsigned_value(p[1], 10, 255),
            text::unsigned_value(p[2], 10, 255),
            text::unsigned_value(p[3], 10, 255),
        ) {
            (Some(a), Some(b), Some(c), Some(d)) => Some(
                (a * 0x100_0000 + b * 0x1_0000 + c * 0x100 + d) as u32,
            ),
            _ => None,
        }
    }
}

proof fn lemma_joined(ip: u32)
    ensures
        joined(dotted(ip)) == Some(ip),
{
    reveal(joined);
    lemma_dotted(ip);
}

fn join(s: &str) -> (r: Option<u32>)
    ensures
        r == joined(s@),
{
    proof {
        reveal(joined);
    }
    let parts = split(&chars_of(s), '.');
    let ghost p = text::pieces(s@, '.');
    if parts.len() != 4 {
        return None;
    }
    assert(parts@[0]@ == p[0] && parts@[1]@ == p[1] && parts@[2]@ == p[2] && parts@[3]@ == p[3]);
    let a: u64 = match parse_unsigned(&parts[0], 10, 255) {
        Some(n) => n,
        None => {
            return None;
        },
    };
    let b: u64 = match parse_unsigned(&parts[1], 10, 255) {
        Some(n) => n,
        None => {
            return None;
        },
    };
    let c: u64 = match parse_unsigned(&parts[2], 10, 255) {
        Some(n) => n,
        None => {
            return None;
        },
    };
    let d: u64 = match parse_unsigned(&parts[3], 10, 255) {
        Some(n) => n,
        None => {
            return None;
        },
    };
    Some((a * 0x100_0000 + b * 0x1_0000 + c * 0x100 + d) as u32)
}

/// The IPv4 address that a text is: four numbers up to 255, without leading
/// zeros
pub fn parse_ipv4(s: &str) -> (r: Option<u32>)
    ensures
        match r {
            Some(ip) => s@ == dotted(ip),
            None => forall|ip: u32| s@ != #[trigger] dotted(ip),
        },
{
    proof {
        assert forall|ip: u32| s@ == #[trigger] dotted(ip) implies joined(s@) == Some(ip) by {
            lemma_joined(ip);
        }
    }
    match join(s) {
        Some(ip) => if same_text(write_dotted(ip).as_str(), s) {
            Some(ip)
        } else {
            None
        },
        None => None,
    }
}

/// A written address is one address.
pub proof fn addresses_read_back(a: u32, b: u32)
    requires
        dotted(a) == dotted(b),
    ensures
        a == b,
{
    lemma_dotted(a);
    lemma_dotted(b);
}

/// What a guest asks of the resolver
pub struct Query {
    pub node: Option<Vec<u8>>,
    pub service: Option<Vec<u8>>,
    pub family: i32,
    pub socktype: i32,
    pub flags: i32,
    /// The name is an IPv6 address, in square brackets or without them.
    pub is_v6: bool,
}

/// Why a lookup fails
#[derive(Debug, Clone, Copy, PartialEq, Eq, Structural)]
pub enum Failure {
    NoName,
    Family,
    Service,
    SockType,
}

/// One answer
#[derive(Debug, Clone, Copy, PartialEq, Eq, Structural)]
pub struct Entry {
    pub ip: u32,
    pub port: u16,
    pub socktype: i32,
    pub protocol: i32,
    /// The answer carries the name that was looked up.
    pub canon: bool,
}

pub enum Answer {
    /// The system's resolver answers.
    System,
    Failed(Failure),
    /// The name, and the answers in order
    Found(Vec<u8>, Vec<Entry>),
}

pub enum AnswerView {
    System,
    Failed(Failure),
    Found(Seq<u8>, Seq<Entry>),
}

impl View for Answer {
    type V = AnswerView;

    open spec fn view(&self) -> AnswerView {
        match self {
            Answer::System => AnswerView::System,
            Answer::Failed(f) => AnswerView::Failed(*f),
            Answer::Found(name, entries) => AnswerView::Found(name@, entries@),
        }
    }
}

/// The port a service is, if it is a number
pub open spec fn port_of(service: Seq<u8>) -> Option<u16> {
    match text::unsigned_value(macho::read_text(service), 10, 65535) {
        Some(n) => Some(n as u16),
        None => None,
    }
}

fn parse_port(service: &Vec<u8>) -> (r: Option<u16>)
    ensures
        r == port_of(service@),
{
    let s = macho::lossy(service.as_slice());
    match parse_unsigned(&chars_of(s.as_str()), 10, 65535) {
        Some(n) => Some(n as u16),
        None => None,
    }
}

/// A letter in lower case
pub open spec fn lower(c: char) -> char {
    if 'A' <= c <= 'Z' {
        (c as int + 32) as char
    } else {
        c
    }
}

/// The text is `localhost`, however its letters are written.
pub open spec fn is_localhost(s: Seq<char>) -> bool {
    s.map_values(|c: char| lower(c)) == "localhost"@
}

fn localhost(s: &str) -> (r: bool)
    ensures
        r == is_localhost(s@),
{
    let chars = chars_of(s);
    let ghost all = s@.map_values(|c: char| lower(c));
    let mut out: Vec<char> = Vec::new();
    let mut i: usize = 0;
    while i < chars.len()
        invariant
            i <= chars@.len(),
            chars@ == s@,
            all == s@.map_values(|c: char| lower(c)),
            out@ == all.take(i as int),
        decreases chars@.len() - i,
    {
        let c: char = chars[i];
        let small: char = if 'A' <= c && c <= 'Z' {
            ((c as u8) + 32) as char
        } else {
            c
        };
        out.push(small);
        assert(all.take(i + 1) =~= all.take(i as int).push(all[i as int]));
        i += 1;
    }
    assert(all.take(i as int) =~= all);
    same_chars(&out, &chars_of("localhost"))
}

/// The text is an IPv4 address.
pub open spec fn is_ipv4(s: Seq<char>) -> bool {
    exists|ip: u32| s == #[trigger] dotted(ip)
}

impl Query {
    /// A name the resolver answers without asking the network
    pub open spec fn needs_no_lookup(self, name: Seq<u8>) -> bool {
        let s = macho::read_text(name);
        self.flags & AI_NUMERICHOST != 0 || is_localhost(s) || is_ipv4(s) || self.is_v6
    }

    /// The virtual host that is asked for: its name and address
    pub open spec fn virtual_host(self, net: NetView) -> Option<(Seq<u8>, u32)> {
        match self.node {
            Some(name) => match netstate::host_named(net.hosts, name@, 0) {
                Some(h) => Some((name@, net.hosts[h as int].addr)),
                None => None,
            },
            None => None,
        }
    }

    /// The port that is asked for is a number, or none.
    pub open spec fn numeric_service(self) -> bool {
        self.service matches Some(s) ==> port_of(s@) is Some
    }

    /// The answer to a lookup of nothing (this host: any address for a
    /// passive socket, else loopback), of `localhost`, or of a numeric IPv4
    /// address
    pub open spec fn local(self) -> Option<(Seq<u8>, u32)> {
        match self.node {
            None => Some(
                (
                    environ::encoded("localhost"@),
                    if self.flags & AI_PASSIVE != 0 {
                        0
                    } else {
                        LOOPBACK
                    },
                ),
            ),
            Some(name) => if name@ == environ::encoded("localhost"@) {
                Some((name@, LOOPBACK))
            } else if is_ipv4(macho::read_text(name@)) {
                let ip = choose|ip: u32| macho::read_text(name@) == #[trigger] dotted(ip);
                Some((name@, ip))
            } else {
                None
            },
        }
    }

    /// The name and address to answer with. A lookup that needs no resolver
    /// is answered here all the same: the system's own goes through threads
    /// and sockets outside the run.
    pub open spec fn found(self, net: NetView) -> Option<(Seq<u8>, u32)> {
        match self.virtual_host(net) {
            Some(h) => Some(h),
            None => if self.numeric_service() {
                self.local()
            } else {
                None
            },
        }
    }

    /// The answers for a name and address
    pub open spec fn answered(self, name: Seq<u8>, ip: u32) -> AnswerView {
        let port = match self.service {
            Some(s) => port_of(s@),
            None => Some(0),
        };
        let canon = self.flags & AI_CANONNAME != 0;
        let stream = Entry {
            ip,
            port: port->0,
            socktype: SOCK_STREAM,
            protocol: IPPROTO_TCP,
            canon,
        };
        let dgram = Entry {
            ip,
            port: port->0,
            socktype: SOCK_DGRAM,
            protocol: IPPROTO_UDP,
            canon,
        };
        if self.family != AF_UNSPEC && self.family != AF_INET {
            AnswerView::Failed(Failure::Family)
        } else if port is None {
            AnswerView::Failed(Failure::Service)
        } else if self.socktype == 0 {
            AnswerView::Found(name, seq![stream, Entry { canon: false, ..dgram }])
        } else if self.socktype == SOCK_STREAM {
            AnswerView::Found(name, seq![stream])
        } else if self.socktype == SOCK_DGRAM {
            AnswerView::Found(name, seq![dgram])
        } else {
            AnswerView::Failed(Failure::SockType)
        }
    }

    /// What a lookup comes to in a run. Any other name is the system
    /// resolver's, which answers in real time with whatever the world says:
    /// refused with the rest of the outside network. Numeric addresses and
    /// localhost need no lookup.
    pub open spec fn answer(self, net: NetView, outside_allowed: bool) -> AnswerView {
        match self.found(net) {
            Some((name, ip)) => self.answered(name, ip),
            None => match self.node {
                Some(name) => if !outside_allowed && !self.needs_no_lookup(name@) {
                    AnswerView::Failed(Failure::NoName)
                } else {
                    AnswerView::System
                },
                None => AnswerView::System,
            },
        }
    }

    fn find_local(&self) -> (r: Option<(Vec<u8>, u32)>)
        ensures
            match r {
                Some((name, ip)) => self.local() == Some((name@, ip)),
                None => self.local() is None,
            },
    {
        match &self.node {
            None => {
                let name = vstd::slice::slice_to_vec("localhost".as_bytes());
                let ip: u32 = if self.flags & AI_PASSIVE != 0 {
                    0
                } else {
                    LOOPBACK
                };
                Some((name, ip))
            },
            Some(name) => {
                if same(name.as_slice(), "localhost".as_bytes()) {
                    return Some((vstd::slice::slice_to_vec(name.as_slice()), LOOPBACK));
                }
                let s = macho::lossy(name.as_slice());
                match parse_ipv4(s.as_str()) {
                    Some(ip) => {
                        proof {
                            let chosen = choose|x: u32| s@ == #[trigger] dotted(x);
                            addresses_read_back(ip, chosen);
                        }
                        Some((vstd::slice::slice_to_vec(name.as_slice()), ip))
                    },
                    None => None,
                }
            },
        }
    }

    fn find(&self, net: &Net) -> (r: Option<(Vec<u8>, u32)>)
        requires
            net.wf(),
        ensures
            match r {
                Some((name, ip)) => self.found(net@) == Some((name@, ip)),
                None => self.found(net@) is None,
            },
    {
        match &self.node {
            Some(name) => match net.host_by_name(name.as_slice()) {
                Some(h) => {
                    proof {
                        lemma_host_named(net@, name@, 0);
                    }
                    return Some(
                        (vstd::slice::slice_to_vec(name.as_slice()), net.host_addr(h)),
                    );
                },
                None => {},
            },
            None => {},
        }
        let numeric: bool = match &self.service {
            Some(s) => parse_port(s).is_some(),
            None => true,
        };
        if numeric {
            self.find_local()
        } else {
            None
        }
    }

    /// What a lookup comes to in a run
    pub fn resolve(&self, net: &Net, outside_allowed: bool) -> (r: Answer)
        requires
            net.wf(),
        ensures
            r@ == self.answer(net@, outside_allowed),
    {
        let (name, ip) = match self.find(net) {
            Some(f) => f,
            None => {
                match &self.node {
                    Some(name) => {
                        if !outside_allowed {
                            let s = macho::lossy(name.as_slice());
                            let free: bool = self.flags & AI_NUMERICHOST != 0 || localhost(
                                s.as_str(),
                            ) || parse_ipv4(s.as_str()).is_some() || self.is_v6;
                            if !free {
                                return Answer::Failed(Failure::NoName);
                            }
                        }
                    },
                    None => {},
                }
                return Answer::System;
            },
        };
        if self.family != AF_UNSPEC && self.family != AF_INET {
            return Answer::Failed(Failure::Family);
        }
        let port: u16 = match &self.service {
            Some(s) => match parse_port(s) {
                Some(p) => p,
                None => {
                    return Answer::Failed(Failure::Service);
                },
            },
            None => 0,
        };
        let canon: bool = self.flags & AI_CANONNAME != 0;
        let mut out: Vec<Entry> = Vec::new();
        if self.socktype == 0 || self.socktype == SOCK_STREAM {
            out.push(
                Entry { ip, port, socktype: SOCK_STREAM, protocol: IPPROTO_TCP, canon },
            );
        }
        if self.socktype == 0 || self.socktype == SOCK_DGRAM {
            out.push(
                Entry {
                    ip,
                    port,
                    socktype: SOCK_DGRAM,
                    protocol: IPPROTO_UDP,
                    canon: canon && self.socktype != 0,
                },
            );
        }
        if out.len() == 0 {
            return Answer::Failed(Failure::SockType);
        }
        let ghost wanted = self.answered(name@, ip);
        proof {
            if let AnswerView::Found(_, entries) = wanted {
                assert(out@ =~= entries);
            }
        }
        Answer::Found(name, out)
    }
}

proof fn lemma_host_named(net: NetView, name: Seq<u8>, i: int)
    ensures
        netstate::host_named(net.hosts, name, i) matches Some(h) ==> net.hosts.len() <= u32::MAX
            ==> i <= h < net.hosts.len(),
    decreases net.hosts.len() - i,
{
    if 0 <= i < net.hosts.len() && net.hosts[i].name != name {
        lemma_host_named(net, name, i + 1);
    }
}

/// A virtual host's name is answered with its address, whatever else is
/// asked of the resolver.
pub proof fn virtual_hosts_are_found(q: Query, net: NetView, allowed: bool, h: int)
    requires
        q.node matches Some(name) && netstate::host_named(net.hosts, name@, 0) == Some(h as u32),
        0 <= h < net.hosts.len() <= u32::MAX,
        q.family == AF_UNSPEC || q.family == AF_INET,
        q.service is None,
        q.socktype == SOCK_STREAM,
    ensures
        q.answer(net, allowed) matches AnswerView::Found(_, entries) && entries.len() == 1
            && entries[0].ip == net.hosts[h].addr,
{
}

/// How much of a host's name fits a buffer of `len` bytes, with a zero
/// behind it. None where there is no room at all (`EFAULT`).
pub fn name_room(name: usize, len: usize) -> (r: Option<usize>)
    ensures
        r == (if len == 0 {
            None
        } else if name < len {
            Some(name)
        } else {
            Some((len - 1) as usize)
        }),
{
    if len == 0 {
        None
    } else if name < len {
        Some(name)
    } else {
        Some(len - 1)
    }
}

/// A network interface
#[derive(Debug, Clone, Copy, PartialEq, Eq, Structural)]
pub struct Interface {
    pub flags: u32,
    pub ip: u32,
    pub mask: u32,
    /// Where it has one
    pub broadcast: Option<u32>,
}

/// The loopback, `lo0`, and one interface with the virtual host's address,
/// `en0`
pub fn interfaces(addr: u32) -> (r: (Interface, Interface))
    ensures
        r.0 == (Interface {
            flags: IFF_UP | IFF_RUNNING | IFF_LOOPBACK,
            ip: LOOPBACK,
            mask: 0xFF00_0000,
            broadcast: None,
        }),
        r.1 == (Interface {
            flags: IFF_UP | IFF_RUNNING | IFF_BROADCAST | IFF_MULTICAST,
            ip: addr,
            mask: SUBNET_MASK,
            broadcast: Some(addr | !SUBNET_MASK),
        }),
{
    let up: u32 = IFF_UP | IFF_RUNNING;
    (
        Interface {
            flags: up | IFF_LOOPBACK,
            ip: LOOPBACK,
            mask: 0xFF00_0000,
            broadcast: None,
        },
        Interface {
            flags: up | IFF_BROADCAST | IFF_MULTICAST,
            ip: addr,
            mask: SUBNET_MASK,
            broadcast: Some(addr | !SUBNET_MASK),
        },
    )
}

proof fn lemma_first_host(hosts: Seq<netstate::HostView>, name: Seq<u8>, from: int, h: int)
    requires
        0 <= from <= h < hosts.len(),
        hosts[h].name == name,
        forall|i: int| from <= i < h ==> (#[trigger] hosts[i]).name != name,
    ensures
        netstate::host_named(hosts, name, from) == Some(h as u32),
    decreases h - from,
{
    if from < h {
        assert(hosts[from].name != name);
        lemma_first_host(hosts, name, from + 1, h);
    }
}

proof fn lemma_no_host(hosts: Seq<netstate::HostView>, name: Seq<u8>, from: int)
    requires
        0 <= from,
        forall|i: int| 0 <= i < hosts.len() ==> (#[trigger] hosts[i]).name != name,
    ensures
        netstate::host_named(hosts, name, from) is None,
    decreases hosts.len() - from,
{
    if from < hosts.len() {
        assert(hosts[from].name != name);
        lemma_no_host(hosts, name, from + 1);
    }
}

/// What is asked for is what is answered: the name of a host of the run gives
/// its address, for the kind of socket asked for or for both, with no port.
#[verifier::rlimit(40)]
pub proof fn a_host_is_answered_as_asked(q: Query, net: NetView, allowed: bool, h: int)
    requires
        0 <= h < net.hosts.len() <= u32::MAX,
        q.node matches Some(name) && name@ == net.hosts[h].name,
        forall|i: int| 0 <= i < h ==> (#[trigger] net.hosts[i]).name != net.hosts[h].name,
        q.service is None,
    ensures
        ({
            let r = q.answer(net, allowed);
            let ip = net.hosts[h].addr;
            let canon = q.flags & 0x2 != 0;
            let inet = q.family == 0 || q.family == 2;
            &&& !inet ==> r == AnswerView::Failed(Failure::Family)
            &&& inet && q.socktype == 1 ==> r == AnswerView::Found(
                net.hosts[h].name,
                seq![Entry { ip, port: 0, socktype: 1, protocol: 6, canon }],
            )
            &&& inet && q.socktype == 2 ==> r == AnswerView::Found(
                net.hosts[h].name,
                seq![Entry { ip, port: 0, socktype: 2, protocol: 17, canon }],
            )
            &&& inet && q.socktype == 0 ==> r == AnswerView::Found(
                net.hosts[h].name,
                seq![
                    Entry { ip, port: 0, socktype: 1, protocol: 6, canon },
                    Entry { ip, port: 0, socktype: 2, protocol: 17, canon: false },
                ],
            )
            &&& inet && q.socktype != 0 && q.socktype != 1 && q.socktype != 2 ==> r
                == AnswerView::Failed(Failure::SockType)
        }),
{
    lemma_first_host(net.hosts, net.hosts[h].name, 0, h);
}

/// A name of nobody in the run is not looked up outside, unless that is
/// allowed; one that needs no lookup is the system's to answer, but for
/// `localhost` and written addresses, which are what they say.
#[verifier::rlimit(40)]
pub proof fn an_outside_name_is_not_found(q: Query, net: NetView, allowed: bool, ip: u32)
    requires
        q.node is Some,
        q.service is None,
        q.family == 0,
        q.socktype == 1,
        forall|i: int| 0 <= i < net.hosts.len() ==> (#[trigger] net.hosts[i]).name
            != q.node.unwrap()@,
    ensures
        ({
            let name = q.node.unwrap()@;
            let s = macho::read_text(name);
            let r = q.answer(net, allowed);
            let numeric = q.flags & 0x4 != 0 || q.is_v6;
            let local = s.map_values(|c: char| lower(c)) == "localhost"@;
            let written = exists|ip: u32| s == #[trigger] dotted(ip);
            &&& s == dotted(ip) && name != environ::encoded("localhost"@) ==> (
            r matches AnswerView::Found(_, e) && e.len() == 1 && e[0].ip == ip)
            &&& name == environ::encoded("localhost"@) ==> (r matches AnswerView::Found(_, e)
                && e.len() == 1 && e[0].ip == 0x7F00_0001)
            &&& name != environ::encoded("localhost"@) && !written && !numeric && !local ==> r == (
            if allowed {
                AnswerView::System
            } else {
                AnswerView::Failed(Failure::NoName)
            })
        }),
{
    let name = q.node.unwrap()@;
    lemma_no_host(net.hosts, name, 0);
    let s = macho::read_text(name);
    if s == dotted(ip) {
        let other = choose|x: u32| s == #[trigger] dotted(x);
        addresses_read_back(ip, other);
    }
}

/// A service that is a number is that port, and one that is none is an error,
/// where the name is a host's of the run.
pub proof fn a_numeric_service_is_its_port(
    q: Query,
    net: NetView,
    allowed: bool,
    h: int,
    service: Vec<u8>,
    p: nat,
)
    requires
        0 <= h < net.hosts.len() <= u32::MAX,
        q.node matches Some(name) && name@ == net.hosts[h].name,
        forall|i: int| 0 <= i < h ==> (#[trigger] net.hosts[i]).name != net.hosts[h].name,
        q.service == Some(service),
        macho::read_text(service@) == text::decimal(p),
        q.family == 0,
        q.socktype == 1,
    ensures
        p <= 65535 ==> (q.answer(net, allowed) matches AnswerView::Found(_, e) && e.len() == 1
            && e[0].port == p && e[0].ip == net.hosts[h].addr),
        p > 65535 ==> q.answer(net, allowed) == AnswerView::Failed(Failure::Service),
{
    lemma_first_host(net.hosts, net.hosts[h].name, 0, h);
    text::a_written_number_is_read(p, 10, 65535);
}

} // verus!
