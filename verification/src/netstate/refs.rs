//! Which processes hold descriptors for the virtual sockets, and what goes
//! when the last one does.

use vstd::prelude::*;
use super::traffic::{Payload, PayloadView};
use super::{
    FdRef, Net, NetView, Sock, SockView, FAMILY_INET, MAX_FDREFS, MAX_SOCKETS, S_CLOSED,
    S_CONNECTED, S_FREE, S_LISTENING,
};
use crate::netstate;

verus! {

/// The first record of `pid` holding `sock`, from number `i` on
pub open spec fn ref_from(refs: Seq<FdRef>, pid: u32, sock: u32, i: int) -> Option<int>
    decreases refs.len() - i,
{
    if i < 0 || i >= refs.len() {
        None
    } else if refs[i].count > 0 && refs[i].pid == pid && refs[i].sock == sock {
        Some(i)
    } else {
        ref_from(refs, pid, sock, i + 1)
    }
}

/// The first record in no use, from number `i` on
pub open spec fn spare_from(refs: Seq<FdRef>, i: int) -> Option<int>
    decreases refs.len() - i,
{
    if i < 0 || i >= refs.len() {
        None
    } else if refs[i].count == 0 {
        Some(i)
    } else {
        spare_from(refs, i + 1)
    }
}

/// The record for what `pid` holds of `sock`: the one that there is, or a
/// spare one
pub open spec fn slot(refs: Seq<FdRef>, pid: u32, sock: u32) -> Option<int> {
    match ref_from(refs, pid, sock, 0) {
        Some(i) => Some(i),
        None => spare_from(refs, 0),
    }
}

/// How many descriptors `pid` has for `sock`
pub open spec fn held(refs: Seq<FdRef>, pid: u32, sock: u32) -> u32 {
    match ref_from(refs, pid, sock, 0) {
        Some(i) => refs[i].count,
        None => 0,
    }
}

/// Whether there is at most one record per process and socket
pub open spec fn one_each(refs: Seq<FdRef>) -> bool {
    forall|i: int, j: int|
        0 <= i < j < refs.len() && (#[trigger] refs[i]).count > 0 && (#[trigger] refs[j]).count > 0
            ==> refs[i].pid != refs[j].pid || refs[i].sock != refs[j].sock
}

/// A record that is found is the one looked for; where none is found there
/// is none.
pub proof fn lemma_ref_from(refs: Seq<FdRef>, pid: u32, sock: u32, i: int)
    requires
        0 <= i,
    ensures
        match ref_from(refs, pid, sock, i) {
            Some(k) => i <= k < refs.len() && refs[k].count > 0 && refs[k].pid == pid
                && refs[k].sock == sock,
            None => forall|k: int|
                i <= k < refs.len() && (#[trigger] refs[k]).count > 0 ==> refs[k].pid != pid
                    || refs[k].sock != sock,
        },
    decreases refs.len() - i,
{
    if i < refs.len() {
        lemma_ref_from(refs, pid, sock, i + 1);
    }
}

pub proof fn lemma_spare_from(refs: Seq<FdRef>, i: int)
    requires
        0 <= i,
    ensures
        spare_from(refs, i) matches Some(k) ==> i <= k < refs.len() && refs[k].count == 0,
    decreases refs.len() - i,
{
    if i < refs.len() {
        lemma_spare_from(refs, i + 1);
    }
}

/// Another count of one pair leaves one record per pair.
pub proof fn lemma_one_each(refs: Seq<FdRef>, pid: u32, sock: u32, count: u32)
    requires
        one_each(refs),
    ensures
        slot(refs, pid, sock) matches Some(i) ==> 0 <= i < refs.len() && one_each(
            refs.update(i, FdRef { pid, sock, count }),
        ),
{
    lemma_ref_from(refs, pid, sock, 0);
    lemma_spare_from(refs, 0);
}

/// One more, as far as it can be counted
pub open spec fn up(n: u32) -> u32 {
    if n == u32::MAX {
        n
    } else {
        (n + 1) as u32
    }
}

/// One fewer, and none where there is none
pub open spec fn down(n: u32) -> u32 {
    if n == 0 {
        0
    } else {
        (n - 1) as u32
    }
}

impl NetView {
    /// With another count of what `pid` holds of `sock`
    pub open spec fn counted(self, pid: u32, sock: u32, count: u32) -> NetView {
        match slot(self.fdrefs, pid, sock) {
            Some(i) => NetView { fdrefs: self.fdrefs.update(i, FdRef { pid, sock, count }), ..self },
            None => self,
        }
    }

    /// With so many open descriptors of the socket
    pub open spec fn with_refs(self, sock: int, refs: u32) -> NetView {
        self.with_sock(sock, SockView { refs, ..self.socks[sock] })
    }

    /// `pid` has gained a descriptor for `sock`.
    pub open spec fn ref_added(self, pid: u32, sock: u32) -> NetView {
        self.counted(pid, sock, up(held(self.fdrefs, pid, sock))).with_refs(
            sock as int,
            up(self.socks[sock as int].refs),
        )
    }

    /// `pid` has closed a descriptor for `sock`.
    pub open spec fn ref_dropped(self, pid: u32, sock: u32) -> NetView {
        let refs = down(self.socks[sock as int].refs);
        let net = self.counted(pid, sock, down(held(self.fdrefs, pid, sock))).with_refs(
            sock as int,
            refs,
        );
        if refs == 0 {
            net.released(sock as int)
        } else {
            net
        }
    }

    /// With another state of the socket
    pub open spec fn in_state(self, i: int, state: u8) -> NetView {
        self.with_sock(i, SockView { state, ..self.socks[i] })
    }

    /// The end `far` of a connection is gone: once both ends are, so are
    /// their records; until then the other end learns of it.
    pub open spec fn parted(self, far: int) -> NetView {
        let near = self.socks[far].far_end as int;
        if near >= MAX_SOCKETS {
            self
        } else if self.socks[near].state == S_CLOSED {
            self.in_state(near, S_FREE).in_state(far, S_FREE)
        } else {
            self.delivered(self.socks[far].host, near, PayloadView::Fin).0.in_state(far, S_CLOSED)
        }
    }

    /// The first `n` connections queued on the listener are reset.
    pub open spec fn reset(self, queued: Seq<u32>, n: int) -> NetView
        decreases n,
    {
        if n <= 0 {
            self
        } else {
            self.reset(queued, n - 1).parted(queued[n - 1] as int)
        }
    }

    /// The last descriptor of `sock` is gone.
    pub open spec fn released(self, sock: int) -> NetView {
        let s = self.socks[sock];
        let net = if s.state == S_LISTENING {
            self.reset(s.backlog, s.backlog.len() as int).in_state(sock, S_FREE)
        } else if s.state == S_CONNECTED {
            self.parted(sock)
        } else {
            self.in_state(sock, S_FREE)
        };
        NetView { idents: net.idents.update(sock, 0), ..net }
    }

    /// `pid` has gained a descriptor for each of the first `n` of `held`.
    pub open spec fn refs_added(self, pid: u32, held: Seq<u32>, n: int) -> NetView
        decreases n,
    {
        if n <= 0 {
            self
        } else {
            self.refs_added(pid, held, n - 1).ref_added(pid, held[n - 1])
        }
    }

    /// `pid` has closed `n` descriptors for `sock`.
    pub open spec fn refs_dropped(self, pid: u32, sock: u32, n: int) -> NetView
        decreases n,
    {
        if n <= 0 {
            self
        } else {
            self.refs_dropped(pid, sock, n - 1).ref_dropped(pid, sock)
        }
    }

    /// `pid` has closed the descriptors counted in `counts` for the first
    /// `n` sockets.
    pub open spec fn all_dropped(self, pid: u32, counts: Seq<u32>, n: int) -> NetView
        decreases n,
    {
        if n <= 0 {
            self
        } else {
            self.all_dropped(pid, counts, n - 1).refs_dropped(
                pid,
                (n - 1) as u32,
                counts[n - 1] as int,
            )
        }
    }

    /// What `pid` holds of each socket
    pub open spec fn holdings(self, pid: u32) -> Seq<u32> {
        Seq::new(MAX_SOCKETS as nat, |sock: int| held(self.fdrefs, pid, sock as u32))
    }

    /// What is recorded for `pid` replaced by `held`. Additions come first.
    pub open spec fn refs_set(self, pid: u32, held: Seq<u32>) -> NetView {
        self.refs_added(pid, held, held.len() as int).all_dropped(
            pid,
            self.holdings(pid),
            MAX_SOCKETS as int,
        )
    }

    /// There is a record for one more descriptor.
    pub open spec fn can_add(self, pid: u32, sock: u32) -> bool {
        slot(self.fdrefs, pid, sock) is Some
    }
}

impl Sock {
    fn set_refs(&mut self, refs: u32)
        requires
            old(self).wf(),
        ensures
            final(self).wf(),
            final(self)@ == (SockView { refs, ..old(self)@ }),
    {
        reveal(Sock::wf);
        reveal(SockView::wf);
        self.refs = refs;
        assert(self@ =~= SockView { refs, ..old(self)@ });
    }

    fn end(&mut self, state: u8)
        requires
            old(self).wf(),
            state == S_FREE || state == S_CLOSED,
        ensures
            final(self).wf(),
            final(self)@ == (SockView { state, ..old(self)@ }),
    {
        reveal(Sock::wf);
        reveal(SockView::wf);
        self.state = state;
        assert(self@ =~= SockView { state, ..old(self)@ });
    }
}

impl Net {
    fn count_refs(&mut self, i: u32, refs: u32)
        requires
            old(self).wf(),
            i < MAX_SOCKETS,
        ensures
            final(self).wf(),
            final(self)@ == old(self)@.with_refs(i as int, refs),
    {
        let ghost was = *self;
        proof {
            netstate::lemma_at(was, i as int);
        }
        let s = &mut self.socks[i as usize];
        s.set_refs(refs);
        proof {
            netstate::lemma_changed(was, *self, i as int);
        }
    }

    /// Set the state of a record that is not in use any more.
    fn end(&mut self, i: u32, state: u8)
        requires
            old(self).wf(),
            i < MAX_SOCKETS,
            state == S_FREE || state == S_CLOSED,
        ensures
            final(self).wf(),
            final(self)@ == old(self)@.in_state(i as int, state),
    {
        let ghost was = *self;
        proof {
            netstate::lemma_at(was, i as int);
        }
        let s = &mut self.socks[i as usize];
        s.end(state);
        proof {
            netstate::lemma_changed(was, *self, i as int);
        }
    }

    fn part(&mut self, far: u32)
        requires
            old(self).wf(),
            far < MAX_SOCKETS,
        ensures
            final(self).wf(),
            final(self)@ == old(self)@.parted(far as int),
    {
        proof {
            netstate::lemma_at(*self, far as int);
        }
        let near: u32 = self.socks[far as usize].far_end;
        let host: u32 = self.socks[far as usize].host;
        if near >= 256 {
            return;
        }
        proof {
            netstate::lemma_at(*self, near as int);
        }
        if self.socks[near as usize].state == S_CLOSED {
            self.end(near, S_FREE);
            self.end(far, S_FREE);
        } else {
            self.deliver(host, near, &Payload::Fin);
            self.end(far, S_CLOSED);
        }
    }

    /// The last descriptor of `sock` is gone.
    fn release(&mut self, sock: u32)
        requires
            old(self).wf(),
            sock < MAX_SOCKETS,
        ensures
            final(self).wf(),
            final(self)@ == old(self)@.released(sock as int),
    {
        proof {
            netstate::lemma_at(*self, sock as int);
            netstate::lemma_sock(self@.socks[sock as int]);
        }
        let state: u8 = self.socks[sock as usize].state;
        if state == S_LISTENING {
            // Queued connections are reset
            let ghost start = self@;
            let ghost queued = self@.socks[sock as int].backlog;
            let n: usize = self.socks[sock as usize].backlog.len();
            let queue = vstd::slice::slice_to_vec(self.socks[sock as usize].backlog.as_slice());
            let mut i: usize = 0;
            while i < n
                invariant
                    self.wf(),
                    i <= n == queued.len(),
                    queue@ == queued,
                    forall|k: int| 0 <= k < queued.len() ==> (#[trigger] queued[k]) < MAX_SOCKETS,
                    self@ == start.reset(queued, i as int),
                decreases n - i,
            {
                self.part(queue[i]);
                i += 1;
            }
            self.end(sock, S_FREE);
        } else if state == S_CONNECTED {
            self.part(sock);
        } else {
            self.end(sock, S_FREE);
        }
        let ghost mid = *self;
        proof {
            netstate::lemma_at(mid, sock as int);
        }
        self.idents.set(sock as usize, 0);
        proof {
            netstate::lemma_kept(mid, *self);
        }
    }

    fn find_ref(&self, pid: u32, sock: u32) -> (r: Option<usize>)
        requires
            self.wf(),
        ensures
            match ref_from(self@.fdrefs, pid, sock, 0) {
                Some(i) => r == Some(i as usize) && 0 <= i < MAX_FDREFS
                    && self@.fdrefs[i].count > 0,
                None => r is None,
            },
    {
        let mut i: usize = 0;
        proof {
            netstate::lemma_at(*self, 0);
        }
        while i < MAX_FDREFS
            invariant
                self.fdrefs@.len() == MAX_FDREFS,
                i <= MAX_FDREFS,
                ref_from(self@.fdrefs, pid, sock, 0) == ref_from(self@.fdrefs, pid, sock, i as int),
            decreases MAX_FDREFS - i,
        {
            let r = self.fdrefs[i];
            if r.count > 0 && r.pid == pid && r.sock == sock {
                return Some(i);
            }
            i += 1;
        }
        None
    }

    fn find_spare(&self) -> (r: Option<usize>)
        requires
            self.wf(),
        ensures
            match spare_from(self@.fdrefs, 0) {
                Some(i) => r == Some(i as usize) && 0 <= i < MAX_FDREFS,
                None => r is None,
            },
    {
        let mut i: usize = 0;
        proof {
            netstate::lemma_at(*self, 0);
        }
        while i < MAX_FDREFS
            invariant
                self.fdrefs@.len() == MAX_FDREFS,
                i <= MAX_FDREFS,
                spare_from(self@.fdrefs, 0) == spare_from(self@.fdrefs, i as int),
            decreases MAX_FDREFS - i,
        {
            if self.fdrefs[i].count == 0 {
                return Some(i);
            }
            i += 1;
        }
        None
    }

    /// Set how many descriptors `pid` has for `sock`.
    fn count(&mut self, pid: u32, sock: u32, count: u32)
        requires
            old(self).wf(),
        ensures
            final(self).wf(),
            final(self)@ == old(self)@.counted(pid, sock, count),
    {
        let ghost was = *self;
        let at: Option<usize> = match self.find_ref(pid, sock) {
            Some(i) => Some(i),
            None => self.find_spare(),
        };
        proof {
            netstate::lemma_at(was, 0);
            was.lemma_wf();
            lemma_one_each(was@.fdrefs, pid, sock, count);
        }
        match at {
            Some(i) => {
                self.fdrefs.set(i, FdRef { pid, sock, count });
            },
            None => {},
        }
        proof {
            netstate::lemma_recorded(was, *self);
        }
    }

    /// How many descriptors `pid` has for `sock`
    fn holding(&self, pid: u32, sock: u32) -> (r: u32)
        requires
            self.wf(),
        ensures
            r == held(self@.fdrefs, pid, sock),
    {
        proof {
            netstate::lemma_at(*self, 0);
        }
        match self.find_ref(pid, sock) {
            Some(i) => self.fdrefs[i].count,
            None => 0,
        }
    }

    /// Process `pid` gained a descriptor for `sock`.
    pub fn add_ref(&mut self, pid: u32, sock: u32)
        requires
            old(self).wf(),
            sock < MAX_SOCKETS,
            old(self)@.can_add(pid, sock),
        ensures
            final(self).wf(),
            final(self)@ == old(self)@.ref_added(pid, sock),
    {
        self.gain(pid, sock);
    }

    fn gain(&mut self, pid: u32, sock: u32)
        requires
            old(self).wf(),
            sock < MAX_SOCKETS,
        ensures
            final(self).wf(),
            final(self)@ == old(self)@.ref_added(pid, sock),
    {
        proof {
            netstate::lemma_at(*self, sock as int);
        }
        let refs: u32 = self.socks[sock as usize].refs.saturating_add(1);
        let count: u32 = self.holding(pid, sock).saturating_add(1);
        self.count(pid, sock, count);
        self.count_refs(sock, refs);
    }

    /// Process `pid` closed a descriptor for `sock`.
    pub fn drop_ref(&mut self, pid: u32, sock: u32)
        requires
            old(self).wf(),
            sock < MAX_SOCKETS,
            old(self)@.can_add(pid, sock),
        ensures
            final(self).wf(),
            final(self)@ == old(self)@.ref_dropped(pid, sock),
    {
        self.forget(pid, sock);
    }

    fn forget(&mut self, pid: u32, sock: u32)
        requires
            old(self).wf(),
            sock < MAX_SOCKETS,
        ensures
            final(self).wf(),
            final(self)@ == old(self)@.ref_dropped(pid, sock),
    {
        proof {
            netstate::lemma_at(*self, sock as int);
        }
        let refs: u32 = self.socks[sock as usize].refs.saturating_sub(1);
        let count: u32 = self.holding(pid, sock).saturating_sub(1);
        self.count(pid, sock, count);
        self.count_refs(sock, refs);
        if refs == 0 {
            self.release(sock);
        }
    }

    /// Replace what is recorded for `pid` by `held`, one entry per open
    /// descriptor: a new process counting what it inherited, or a new
    /// image after `execve` dropped the close-on-exec ones. Additions come
    /// first so a socket that stays open never looks released in between.
    pub fn set_refs(&mut self, pid: u32, held: &[u32])
        requires
            old(self).wf(),
            forall|i: int| 0 <= i < held@.len() ==> (#[trigger] held@[i]) < MAX_SOCKETS && old(
                self,
            )@.refs_added(pid, held@, i).can_add(pid, held@[i]),
        ensures
            final(self).wf(),
            final(self)@ == old(self)@.refs_set(pid, held@),
    {
        let ghost start = self@;
        let mut counts: Vec<u32> = Vec::new();
        let mut sock: u32 = 0;
        while sock < 256
            invariant
                self.wf(),
                self@ == start,
                sock <= 256,
                counts@.len() == sock,
                forall|k: int| 0 <= k < sock ==> #[trigger] counts@[k] == start.holdings(pid)[k],
            decreases 256 - sock,
        {
            counts.push(self.holding(pid, sock));
            sock += 1;
        }
        assert(counts@ =~= start.holdings(pid));
        let mut i: usize = 0;
        while i < held.len()
            invariant
                self.wf(),
                i <= held@.len(),
                forall|k: int| 0 <= k < held@.len() ==> (#[trigger] held@[k]) < MAX_SOCKETS,
                self@ == start.refs_added(pid, held@, i as int),
            decreases held@.len() - i,
        {
            self.gain(pid, held[i]);
            i += 1;
        }
        let ghost added = self@;
        let mut sock: u32 = 0;
        while sock < 256
            invariant
                self.wf(),
                sock <= 256,
                counts@.len() == 256,
                self@ == added.all_dropped(pid, counts@, sock as int),
            decreases 256 - sock,
        {
            let ghost before = self@;
            let n: u32 = counts[sock as usize];
            let mut k: u32 = 0;
            while k < n
                invariant
                    self.wf(),
                    sock < 256,
                    k <= n,
                    self@ == before.refs_dropped(pid, sock, k as int),
                decreases n - k,
            {
                self.forget(pid, sock);
                k += 1;
            }
            sock += 1;
        }
    }

    /// Process `pid` is gone and the kernel closed its descriptors.
    pub fn process_died(&mut self, pid: u32)
        requires
            old(self).wf(),
        ensures
            final(self).wf(),
            final(self)@ == old(self)@.refs_set(pid, Seq::empty()),
    {
        let none: Vec<u32> = Vec::new();
        assert(none@ =~= Seq::<u32>::empty());
        self.set_refs(pid, none.as_slice());
    }
}

} // verus!
