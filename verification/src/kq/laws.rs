//! What registrations and watches come to, said of what was asked for and of
//! what is there.

use vstd::prelude::*;
use super::{Change, Kevent, KqView, Reg, Snapshot, Told, Watch};
use crate::netstate::readiness::Readiness;

verus! {

/// A registration that has something to tell: it is enabled, its socket is
/// ready, and where it is edge-triggered (`0x20`) something happened since it
/// last told
pub open spec fn has_news(r: Reg, snap: Option<Snapshot>) -> bool {
    &&& r.enabled
    &&& snap matches Some(s) && s.now.ready && (r.flags & 0x20 != 0 ==> r.seen != Some(s.events))
}

/// The event tells of the registration and what there is.
pub open spec fn tells_of(e: Kevent, r: Reg, now: Readiness) -> bool {
    &&& e.ident == r.fd as u64
    &&& e.filter == r.filter
    &&& e.udata == r.udata
    &&& e.data == now.data
    &&& e.flags & 0x8000 != 0 <==> now.eof
}

/// What is left of a registration that has told: nothing of a one-shot
/// (`0x10`); one that is delivered once (`0x80`) is disabled; each knows up to
/// where it has told.
pub open spec fn left_of(r: Reg, events: u64) -> Option<Reg> {
    if r.flags & 0x10 != 0 {
        None
    } else {
        Some(
            Reg {
                fd: r.fd,
                sock: r.sock,
                filter: r.filter,
                flags: r.flags,
                udata: r.udata,
                enabled: r.flags & 0x80 == 0 && r.enabled,
                seen: Some(events),
            },
        )
    }
}

proof fn lemma_flags(f: u16)
    requires
        f & 0x8000 == 0,
    ensures
        (f | 0x1) & 0x8000 == 0,
        (f | 0x1 | 0x8000) & 0x8000 != 0,
{
    assert((f | 0x1) & 0x8000 == 0) by (bit_vector)
        requires
            f & 0x8000 == 0,
    ;
    assert((f | 0x1 | 0x8000) & 0x8000 != 0) by (bit_vector);
}

proof fn lemma_told(r: Reg, snap: Snapshot)
    requires
        r.flags & 0x8000 == 0,
    ensures
        r.fires(snap.now, snap.events) <==> has_news(r, Some(snap)),
        tells_of(r.event(snap.now), r, snap.now),
        r.enabled ==> r.fired(snap.events) == left_of(r, snap.events),
{
    lemma_flags(r.flags);
}

/// Where there is room for all, a registration with news is told of, and is
/// left as its kind says; one without stays as it is.
pub proof fn all_news_is_told(regs: Seq<Reg>, snaps: Seq<Option<Snapshot>>, room: int, i: int)
    requires
        snaps.len() == regs.len(),
        room >= regs.len(),
        0 <= i < regs.len(),
        regs[i].flags & 0x8000 == 0,
    ensures
        ({
            let (events, kept) = super::collected(regs, snaps, room, regs.len() as int);
            let r = regs[i];
            &&& events.len() <= regs.len()
            &&& has_news(r, snaps[i]) ==> exists|e: Kevent| #[trigger]
                events.contains(e) && tells_of(e, r, snaps[i]->0.now)
            &&& has_news(r, snaps[i]) ==> (left_of(r, snaps[i]->0.events) matches Some(after)
                ==> kept.contains(after))
            &&& !has_news(r, snaps[i]) ==> kept.contains(r)
        }),
{
    lemma_collected(regs, snaps, room, i, regs.len() as int);
    if has_news(regs[i], snaps[i]) {
        lemma_told(regs[i], snaps[i]->0);
        let (events, kept) = super::collected(regs, snaps, room, regs.len() as int);
        assert(events.contains(regs[i].event(snaps[i]->0.now)));
    }
}

#[verifier::rlimit(40)]
proof fn lemma_collected(regs: Seq<Reg>, snaps: Seq<Option<Snapshot>>, room: int, i: int, n: int)
    requires
        0 <= n <= regs.len(),
        snaps.len() == regs.len(),
        room >= regs.len(),
        0 <= i < regs.len(),
        regs[i].flags & 0x8000 == 0,
    ensures
        ({
            let (events, kept) = super::collected(regs, snaps, room, n);
            let r = regs[i];
            &&& events.len() <= n
            &&& i < n && has_news(r, snaps[i]) ==> events.contains(r.event(snaps[i]->0.now))
            &&& i < n && has_news(r, snaps[i]) ==> (left_of(
                r,
                snaps[i]->0.events,
            ) matches Some(after) ==> kept.contains(after))
            &&& i < n && !has_news(r, snaps[i]) ==> kept.contains(r)
        }),
    decreases n,
{
    if n > 0 {
        lemma_collected(regs, snaps, room, i, n - 1);
        let (was, had) = super::collected(regs, snaps, room, n - 1);
        let (events, kept) = super::collected(regs, snaps, room, n);
        lemma_grown(was, events);
        lemma_grown(had, kept);
        if i == n - 1 {
            if let Some(snap) = snaps[i] {
                lemma_told(regs[i], snap);
                if has_news(regs[i], snaps[i]) {
                    assert(events[was.len() as int] == regs[i].event(snap.now));
                    if let Some(after) = left_of(regs[i], snap.events) {
                        assert(kept[had.len() as int] == after);
                    }
                } else {
                    assert(kept[had.len() as int] == regs[i]);
                }
            } else {
                assert(kept[had.len() as int] == regs[i]);
            }
        }
    }
}

proof fn lemma_grown<T>(a: Seq<T>, b: Seq<T>)
    ensures
        b == a || (b.len() == a.len() + 1 && b.drop_last() == a) ==> forall|x: T| #[trigger]
            a.contains(x) ==> b.contains(x),
        forall|x: T| b == #[trigger] a.push(x) ==> b.len() == a.len() + 1 && b.drop_last() == a,
{
    if b == a || (b.len() == a.len() + 1 && b.drop_last() == a) {
        assert forall|x: T| #[trigger] a.contains(x) implies b.contains(x) by {
            let j = choose|j: int| 0 <= j < a.len() && a[j] == x;
            assert(b[j] == x);
        }
    }
    assert forall|x: T| b == #[trigger] a.push(x) implies b.len() == a.len() + 1 && b.drop_last()
        == a by {
        assert(b.drop_last() =~= a);
    }
}

/// Nothing else is told: every event is of a registration that has news.
pub proof fn only_news_is_told(regs: Seq<Reg>, snaps: Seq<Option<Snapshot>>, room: int, j: int)
    requires
        snaps.len() == regs.len(),
        forall|i: int| 0 <= i < regs.len() ==> (#[trigger] regs[i]).flags & 0x8000 == 0,
        0 <= j < super::collected(regs, snaps, room, regs.len() as int).0.len(),
    ensures
        exists|i: int|
            0 <= i < regs.len() && #[trigger] has_news(regs[i], snaps[i]) && tells_of(
                super::collected(regs, snaps, room, regs.len() as int).0[j],
                regs[i],
                snaps[i]->0.now,
            ),
{
    lemma_only(regs, snaps, room, j, regs.len() as int);
}

proof fn lemma_only(regs: Seq<Reg>, snaps: Seq<Option<Snapshot>>, room: int, j: int, n: int)
    requires
        0 <= n <= regs.len(),
        snaps.len() == regs.len(),
        forall|i: int| 0 <= i < regs.len() ==> (#[trigger] regs[i]).flags & 0x8000 == 0,
        0 <= j < super::collected(regs, snaps, room, n).0.len(),
    ensures
        exists|i: int|
            0 <= i < regs.len() && #[trigger] has_news(regs[i], snaps[i]) && tells_of(
                super::collected(regs, snaps, room, n).0[j],
                regs[i],
                snaps[i]->0.now,
            ),
    decreases n,
{
    if n > 0 {
        let was = super::collected(regs, snaps, room, n - 1).0;
        let events = super::collected(regs, snaps, room, n).0;
        if j < was.len() {
            lemma_only(regs, snaps, room, j, n - 1);
            assert(events[j] == was[j]);
        } else {
            let snap = snaps[n - 1]->0;
            lemma_told(regs[n - 1], snap);
            assert(has_news(regs[n - 1], snaps[n - 1]));
        }
    }
}

/// What a watch tells: of a process that is gone once, with the end flag, that
/// it exited (`NOTE_EXIT`), and its status where that was asked for
/// (`NOTE_EXITSTATUS`); of a signal how often it came since it last told. A
/// disabled one tells nothing, and nobody tells of the living.
pub proof fn a_watch_tells_what_it_watches(w: Watch, status: i32, count: u64)
    requires
        w.flags & 0x8000 == 0,
    ensures
        !w.fires(Told::Living),
        w.fires(Told::Gone(status)) <==> w.enabled && w.told == 0,
        w.fires(Told::Count(count)) <==> w.enabled && count > w.told,
        ({
            let gone = w.event(Told::Gone(status));
            let came = w.event(Told::Count(count));
            &&& gone.ident == w.ident && gone.filter == w.filter && gone.udata == w.udata
            &&& came.ident == w.ident && came.filter == w.filter && came.udata == w.udata
            &&& gone.flags & 0x8000 != 0
            &&& gone.fflags & 0x8000_0000 != 0
            &&& w.fflags & 0x0400_0000 != 0 ==> gone.data == status && gone.fflags & 0x0400_0000
                != 0
            &&& w.fflags & 0x0400_0000 == 0 ==> gone.data == 0
            &&& w.told <= count && count - w.told <= i64::MAX ==> came.data == count - w.told
            &&& came.flags & 0x8000 == 0
        }),
        w.flags & 0x10 != 0 <==> w.fired(Told::Gone(status)) is None,
        w.flags & 0x10 != 0 <==> w.fired(Told::Count(count)) is None,
        w.fired(Told::Count(count)) matches Some(after) ==> after.told == count && (after.enabled
            <==> w.enabled && w.flags & 0x80 == 0),
        w.fired(Told::Gone(status)) matches Some(after) ==> after.told != 0 && (after.enabled
            <==> w.enabled && w.flags & 0x80 == 0),
{
    lemma_flags(w.flags);
    let f = w.fflags;
    assert((0x8000_0000u32 | (f & 0x0400_0000)) & 0x8000_0000 != 0 && (f & 0x0400_0000 != 0 ==> (
    0x8000_0000u32 | (f & 0x0400_0000)) & 0x0400_0000 != 0)) by (bit_vector);
}

/// Where there is room for all, every watch that has something to tell gives
/// its event, and nothing else does.
pub proof fn every_watch_is_told(watches: Seq<Watch>, told: Seq<Told>, room: int)
    requires
        told.len() == watches.len(),
        room >= watches.len(),
    ensures
        ({
            let (events, kept) = super::fed(watches, told, room, watches.len() as int);
            &&& forall|i: int|
                0 <= i < watches.len() && (#[trigger] watches[i]).fires(told[i])
                    ==> events.contains(watches[i].event(told[i]))
            &&& forall|i: int|
                0 <= i < watches.len() && !(#[trigger] watches[i]).fires(told[i])
                    ==> kept.contains(watches[i])
            &&& events.len() == watches.len() ==> forall|i: int|
                0 <= i < watches.len() ==> (#[trigger] watches[i]).fires(told[i])
        }),
{
    lemma_fed_all(watches, told, room, watches.len() as int);
}

#[verifier::rlimit(40)]
proof fn lemma_fed_all(watches: Seq<Watch>, told: Seq<Told>, room: int, n: int)
    requires
        0 <= n <= watches.len(),
        told.len() == watches.len(),
        room >= watches.len(),
    ensures
        ({
            let (events, kept) = super::fed(watches, told, room, n);
            &&& events.len() <= n
            &&& forall|i: int|
                0 <= i < n && (#[trigger] watches[i]).fires(told[i]) ==> events.contains(
                    watches[i].event(told[i]),
                )
            &&& forall|i: int|
                0 <= i < n && !(#[trigger] watches[i]).fires(told[i]) ==> kept.contains(watches[i])
            &&& events.len() == n ==> forall|i: int|
                0 <= i < n ==> (#[trigger] watches[i]).fires(told[i])
        }),
    decreases n,
{
    if n > 0 {
        lemma_fed_all(watches, told, room, n - 1);
        let (was, had) = super::fed(watches, told, room, n - 1);
        let (events, kept) = super::fed(watches, told, room, n);
        assert forall|x: Kevent| #[trigger] was.contains(x) implies events.contains(x) by {
            let j = choose|j: int| 0 <= j < was.len() && was[j] == x;
            assert(events[j] == x);
        }
        assert forall|x: Watch| #[trigger] had.contains(x) implies kept.contains(x) by {
            let j = choose|j: int| 0 <= j < had.len() && had[j] == x;
            assert(kept[j] == x);
        }
        if watches[n - 1].fires(told[n - 1]) {
            assert(events[was.len() as int] == watches[n - 1].event(told[n - 1]));
        } else {
            assert(kept[had.len() as int] == watches[n - 1]);
        }
    }
}

/// No descriptor is registered twice for a filter.
pub open spec fn each_once(regs: Seq<Reg>) -> bool {
    forall|i: int, j: int|
        0 <= i < j < regs.len() ==> !((#[trigger] regs[i]).fd == (#[trigger] regs[j]).fd
            && regs[i].filter == regs[j].filter)
}

proof fn lemma_reg_at(regs: Seq<Reg>, fd: i32, filter: i16, i: int)
    requires
        0 <= i,
    ensures
        match super::reg_at(regs, fd, filter, i) {
            Some(k) => i <= k < regs.len() && regs[k].fd == fd && regs[k].filter == filter,
            None => forall|k: int|
                i <= k < regs.len() ==> !((#[trigger] regs[k]).fd == fd && regs[k].filter
                    == filter),
        },
    decreases regs.len() - i,
{
    if i < regs.len() {
        lemma_reg_at(regs, fd, filter, i + 1);
    }
}

/// A change does what its flags say: `EV_ADD` (`1`) leaves one registration of
/// the descriptor and filter, with what was asked for, enabled as it was or
/// new, ready to tell; `EV_DELETE` (`2`) leaves none; `EV_ENABLE` (`4`) and
/// `EV_DISABLE` (`8`) switch it. No other registration is touched.
#[verifier::rlimit(40)]
pub proof fn a_change_does_what_its_flags_say(k: KqView, ev: Kevent, sock: u32, i: int)
    requires
        each_once(k.regs),
        0 <= ev.ident <= i32::MAX,
        0 <= i,
    ensures
        ({
            let after = k.changed(ev, sock).regs;
            let fd = ev.ident as i32;
            let ours = |r: Reg| r.fd == fd && r.filter == ev.filter;
            &&& each_once(after)
            &&& ev.flags & 0x2 != 0 && i < after.len() ==> !ours(after[i])
            &&& ev.flags & 0x2 == 0 && ev.flags & 0x1 != 0 ==> exists|j: int|
                0 <= j < after.len() && ours(#[trigger] after[j])
            &&& ev.flags & 0x2 == 0 && ev.flags & 0x1 != 0 && i < after.len() && ours(after[i])
                ==> {
                &&& after[i].sock == sock
                &&& after[i].udata == ev.udata
                &&& after[i].flags == ev.flags & 0xb0
                &&& after[i].seen is None
            }
            &&& ev.flags & 0x2 == 0 && ev.flags & 0x8 != 0 && i < after.len() && ours(after[i])
                ==> !after[i].enabled
            &&& ev.flags & 0x2 == 0 && ev.flags & 0x4 != 0 && ev.flags & 0x8 == 0 && i
                < after.len() && ours(after[i]) ==> after[i].enabled
            &&& i < k.regs.len() && !ours(k.regs[i]) ==> after.contains(k.regs[i])
            &&& i < after.len() && !ours(after[i]) ==> k.regs.contains(after[i])
            &&& (forall|j: int| 0 <= j < k.regs.len() ==> !ours(#[trigger] k.regs[j]))
                && ev.flags & 0x4 == 0 && ev.flags & 0x8 == 0 && i < after.len() && ours(
                after[i],
            ) ==> after[i].enabled
        }),
{
    let fd = ev.ident as i32;
    lemma_reg_at(k.regs, fd, ev.filter, 0);
    let after = k.changed(ev, sock).regs;
    match super::reg_at(k.regs, fd, ev.filter, 0) {
        Some(at) => {
            if ev.flags & 0x2 != 0 {
                assert(after == k.regs.remove(at));
                if i < k.regs.len() && i != at {
                    let j = if i < at {
                        i
                    } else {
                        i - 1
                    };
                    assert(after[j] == k.regs[i]);
                }
                if i < after.len() {
                    let j = if i < at {
                        i
                    } else {
                        i + 1
                    };
                    assert(after[i] == k.regs[j]);
                    assert(j < at || at < j);
                }
            } else {
                assert(after[at].fd == fd && after[at].filter == ev.filter);
                if i < k.regs.len() && i != at {
                    assert(after[i] == k.regs[i]);
                    assert(i < at || at < i);
                }
            }
        },
        None => {
            if ev.flags & 0x2 == 0 && ev.flags & 0x1 != 0 {
                let last = k.regs.len() as int;
                assert(after[last].fd == fd && after[last].filter == ev.filter);
                if i < last {
                    assert(after[i] == k.regs[i]);
                }
            } else {
                assert(after == k.regs);
                if i < after.len() {
                    assert(after[i] == k.regs[i]);
                }
            }
        },
    }
}

/// What is the kernel's of a list of changes: those that are neither on a
/// virtual socket nor watches, in their order
pub proof fn the_kernel_gets_the_rest(changes: Seq<Change>)
    ensures
        super::kernels_of(changes, changes.len() as int) == changes.filter(
            |c: Change|
                !(c.sock is Some && (c.ev.filter == -1 || c.ev.filter == -2)) && !(c.ev.filter == -6)
                    && !(c.ev.filter == -5 && c.ev.ident >= crate::shared::VPID_BASE),
        ).map_values(|c: Change| c.ev),
{
    lemma_kernels(changes, changes.len() as int);
    assert(changes.take(changes.len() as int) =~= changes);
}

proof fn lemma_kernels(changes: Seq<Change>, n: int)
    requires
        0 <= n <= changes.len(),
    ensures
        super::kernels_of(changes, n) == changes.take(n).filter(
            |c: Change|
                !(c.sock is Some && (c.ev.filter == -1 || c.ev.filter == -2)) && !(c.ev.filter == -6)
                    && !(c.ev.filter == -5 && c.ev.ident >= crate::shared::VPID_BASE),
        ).map_values(|c: Change| c.ev),
    decreases n,
{
    reveal(Seq::filter);
    let theirs = |c: Change|
        !(c.sock is Some && (c.ev.filter == -1 || c.ev.filter == -2)) && !(c.ev.filter == -6) && !(
        c.ev.filter == -5 && c.ev.ident >= crate::shared::VPID_BASE);
    let all = changes.take(n);
    if n > 0 {
        lemma_kernels(changes, n - 1);
        assert(all.drop_last() =~= changes.take(n - 1));
        assert(all.last() == changes[n - 1]);
        assert(super::kernels_of(changes, n) =~= all.filter(theirs).map_values(|c: Change| c.ev));
    } else {
        assert(super::kernels_of(changes, n) =~= all.filter(theirs).map_values(|c: Change| c.ev));
    }
}

/// A kqueue is found by any of its descriptors, the first that has it.
pub proof fn a_kqueue_is_found_by_its_descriptor(kqs: Seq<KqView>, fd: i32, from: int, i: int)
    requires
        0 <= from <= i < kqs.len(),
        kqs[i].fds.contains(fd),
        forall|k: int| from <= k < i ==> !(#[trigger] kqs[k]).fds.contains(fd),
    ensures
        super::kq_at(kqs, fd, from) == Some(i),
    decreases i - from,
{
    if from < i {
        assert(!kqs[from].fds.contains(fd));
        a_kqueue_is_found_by_its_descriptor(kqs, fd, from + 1, i);
    }
}

proof fn lemma_watch_at(watches: Seq<Watch>, ident: u64, filter: i16, i: int)
    requires
        0 <= i,
    ensures
        match super::watch_at(watches, ident, filter, i) {
            Some(k) => i <= k < watches.len() && watches[k].ident == ident && watches[k].filter
                == filter,
            None => forall|k: int|
                i <= k < watches.len() ==> !((#[trigger] watches[k]).ident == ident
                    && watches[k].filter == filter),
        },
    decreases watches.len() - i,
{
    if i < watches.len() {
        lemma_watch_at(watches, ident, filter, i + 1);
    }
}

/// A watch that is added is there, with what was asked for, and tells of signals
/// from then on; one that is deleted is not. No other watch is touched.
pub proof fn a_watch_is_kept_as_asked(k: KqView, c: Change, i: int)
    requires
        0 <= i,
        forall|a: int, b: int|
            0 <= a < b < k.watches.len() ==> !((#[trigger] k.watches[a]).ident == (
            #[trigger] k.watches[b]).ident && k.watches[a].filter == k.watches[b].filter),
    ensures
        ({
            let after = k.watching(c).watches;
            let ours = |w: Watch| w.ident == c.ev.ident && w.filter == c.ev.filter;
            let new = forall|j: int| 0 <= j < k.watches.len() ==> !ours(#[trigger] k.watches[j]);
            &&& c.ev.flags & 0x2 != 0 && i < after.len() ==> !ours(after[i])
            &&& c.ev.flags & 0x2 == 0 && c.ev.flags & 0x1 != 0 ==> exists|j: int|
                0 <= j < after.len() && ours(#[trigger] after[j])
            &&& c.ev.flags & 0x2 == 0 && c.ev.flags & 0x1 != 0 && i < after.len() && ours(after[i])
                ==> after[i].udata == c.ev.udata && after[i].fflags == c.ev.fflags
                && after[i].flags == c.ev.flags & 0xb0
            &&& c.ev.flags & 0x2 == 0 && c.ev.flags & 0x1 != 0 && new && i < after.len() && ours(
                after[i],
            ) ==> after[i].told == (if c.ev.filter == -6 {
                c.count
            } else {
                0
            }) && (c.ev.flags & 0x8 == 0 ==> after[i].enabled)
            &&& c.ev.flags & 0x2 == 0 && c.ev.flags & 0x8 != 0 && i < after.len() && ours(after[i])
                ==> !after[i].enabled
            &&& i < k.watches.len() && !ours(k.watches[i]) ==> after.contains(k.watches[i])
        }),
{
    lemma_watch_at(k.watches, c.ev.ident, c.ev.filter, 0);
    let after = k.watching(c).watches;
    match super::watch_at(k.watches, c.ev.ident, c.ev.filter, 0) {
        Some(at) => {
            assert(k.watches[at].ident == c.ev.ident);
            if c.ev.flags & 0x2 != 0 {
                assert(after == k.watches.remove(at));
                if i < k.watches.len() && i != at {
                    let j = if i < at {
                        i
                    } else {
                        i - 1
                    };
                    assert(after[j] == k.watches[i]);
                }
                if i < after.len() {
                    let j = if i < at {
                        i
                    } else {
                        i + 1
                    };
                    assert(after[i] == k.watches[j]);
                    assert(j < at || at < j);
                }
            } else {
                assert(after[at].ident == c.ev.ident && after[at].filter == c.ev.filter);
                if i < k.watches.len() && i != at {
                    assert(after[i] == k.watches[i]);
                    assert(i < at || at < i);
                }
            }
        },
        None => {
            if c.ev.flags & 0x2 == 0 && c.ev.flags & 0x1 != 0 {
                let last = k.watches.len() as int;
                assert(after[last].ident == c.ev.ident && after[last].filter == c.ev.filter);
                if i < last {
                    assert(after[i] == k.watches[i]);
                }
            } else {
                assert(after == k.watches);
                if i < after.len() {
                    assert(after[i] == k.watches[i]);
                }
            }
        },
    }
}

proof fn lemma_other_idents(s: Seq<u64>, ident: u64)
    ensures
        !super::other_idents(s, ident).contains(ident),
    decreases s.len(),
{
    if s.len() > 0 {
        lemma_other_idents(s.drop_last(), ident);
        let before = super::other_idents(s.drop_last(), ident);
        let all = super::other_idents(s, ident);
        if all.contains(ident) {
            let i = choose|i: int| 0 <= i < all.len() && all[i] == ident;
            if i < before.len() {
                assert(before[i] == ident);
            }
        }
    }
}

/// A user event that is registered is one of the kqueue's, so that a wait on it
/// is the scheduler's; one that is deleted is not.
pub proof fn a_user_event_is_the_kqueues(k: KqView, c: Change)
    requires
        c.ev.filter == -10,
    ensures
        c.ev.flags & 0x2 == 0 ==> k.passed(c).user_events.contains(c.ev.ident) && k.passed(
            c,
        ).is_ours(),
        c.ev.flags & 0x2 != 0 ==> !k.passed(c).user_events.contains(c.ev.ident),
{
    lemma_other_idents(k.user_events, c.ev.ident);
    let left = super::other_idents(k.user_events, c.ev.ident);
    if c.ev.flags & 0x2 == 0 {
        assert(k.passed(c).user_events == left.push(c.ev.ident));
        assert(left.push(c.ev.ident)[left.len() as int] == c.ev.ident);
    }
}

/// A registration that only the outside world can fire is known as one until it
/// is deleted; one on a pipe between guests is the kqueue's own.
pub proof fn an_outside_registration_is_known(k: KqView, c: Change)
    requires
        c.ev.filter != -10,
    ensures
        ({
            let io = c.ev.filter == -1 || c.ev.filter == -2;
            let key = (c.ev.ident, c.ev.filter);
            let after = k.passed(c);
            &&& !(io && c.guest_object) && c.ev.flags & 0x2 == 0 ==> after.external.contains(key)
            &&& !(io && c.guest_object) && c.ev.flags & 0x2 != 0 ==> !after.external.contains(key)
            &&& io && c.guest_object ==> after.guest_objects.contains(c.ev.ident as i32)
                && after.external == k.external
        }),
{
    let key = (c.ev.ident, c.ev.filter);
    let fd = c.ev.ident as i32;
    lemma_other_keys(k.external, key);
    let left = super::other_keys(k.external, key);
    assert(left.push(key)[left.len() as int] == key);
    assert(k.guest_objects.push(fd)[k.guest_objects.len() as int] == fd);
}

proof fn lemma_other_keys(s: Seq<(u64, i16)>, key: (u64, i16))
    ensures
        !super::other_keys(s, key).contains(key),
    decreases s.len(),
{
    if s.len() > 0 {
        lemma_other_keys(s.drop_last(), key);
        let before = super::other_keys(s.drop_last(), key);
        let all = super::other_keys(s, key);
        if all.contains(key) {
            let i = choose|i: int| 0 <= i < all.len() && all[i] == key;
            if i < before.len() {
                assert(before[i] == key);
            }
        }
    }
}

} // verus!
