//! What a background walk over a document reports to: a channel that takes its
//! results and a flag that tells it to stop.

use crate::channel::{Channel, Flag};
use std::sync::atomic::AtomicBool;
use std::sync::mpsc::Sender;
use vstd::prelude::*;

verus! {

proof fn lemma_contains_pushed(seen: Seq<bool>, up: bool)
    ensures
        seen.push(up).contains(true) == (seen.contains(true) || up),
{
    let all = seen.push(up);
    assert(all[seen.len() as int] == up);
    if seen.contains(true) {
        let i = choose|i: int| 0 <= i < seen.len() && seen[i] == true;
        assert(all[i]);
    }
}

/// The receiving end of a walk, as the walk sees it.
#[verifier::reject_recursive_types(T)]
pub struct Outlet<'a, T> {
    channel: Channel<'a, T>,
    cancel: Flag<'a>,
    counter: u64,
    found: usize,
    stopped: bool,
}

/// How many times a walk asks between two looks at the flag.
pub const POLL_STRIDE: u64 = 4096;

impl<'a, T> Outlet<'a, T> {
    /// What the channel has taken so far.
    pub closed spec fn sent(&self) -> Seq<T> {
        self.channel.sent()
    }

    /// What the flag showed, each time it was looked at.
    pub closed spec fn seen(&self) -> Seq<bool> {
        self.cancel.seen()
    }

    /// Whether the channel took nothing more.
    pub closed spec fn refused(&self) -> bool {
        self.channel.refused()
    }

    /// How often the walk has asked whether to go on. The count starts over behind
    /// `u64::MAX`.
    pub closed spec fn polls(&self) -> int {
        self.counter as int
    }

    /// Whether the walk was told to stop: by the flag, or by a channel that
    /// takes nothing more.
    pub closed spec fn told_to_stop(&self) -> bool {
        self.stopped
    }

    pub closed spec fn wf(&self) -> bool {
        &&& self.found == self.channel.sent().len()
        &&& self.stopped == (self.channel.refused() || self.cancel.seen().contains(true))
    }

    /// A walk is told to stop where the flag was seen up or the channel took nothing
    /// more, and nowhere else.
    pub proof fn law_who_tells_to_stop(&self)
        requires
            self.wf(),
        ensures
            self.told_to_stop() == (self.refused() || self.seen().contains(true)),
    {
    }

    pub fn new(tx: &'a Sender<T>, cancel: &'a AtomicBool) -> (r: Self)
        ensures
            r.wf(),
            r.sent() == Seq::<T>::empty(),
            r.seen() == Seq::<bool>::empty(),
            r.polls() == 0,
            !r.refused(),
            !r.told_to_stop(),
    {
        Outlet {
            channel: Channel::new(tx),
            cancel: Flag::new(cancel),
            counter: 0,
            found: 0,
            stopped: false,
        }
    }

    pub fn is_stopped(&self) -> (r: bool)
        ensures
            r == self.told_to_stop(),
    {
        self.stopped
    }

    /// How many results the channel has taken.
    pub fn count(&self) -> (r: usize)
        requires
            self.wf(),
        ensures
            r == self.sent().len(),
    {
        self.found
    }

    /// Look at the flag, and tell what it showed. That is up to whoever holds the
    /// other end.
    pub fn poll_now(&mut self) -> (r: bool)
        requires
            old(self).wf(),
        ensures
            final(self).wf(),
            final(self).sent() == old(self).sent(),
            final(self).refused() == old(self).refused(),
            final(self).polls() == old(self).polls(),
            final(self).seen() == old(self).seen().push(r),
            final(self).told_to_stop() == (old(self).told_to_stop() || r),
    {
        let ghost before = self.cancel.seen();
        let up = self.cancel.look();
        proof {
            lemma_contains_pushed(before, up);
        }
        if up {
            self.stopped = true;
        }
        up
    }

    /// Look at the flag every so many times (`POLL_STRIDE`): cheap, and bounds how long an
    /// abandoned walk goes on before it notices.
    pub fn poll(&mut self) -> (r: bool)
        requires
            old(self).wf(),
        ensures
            final(self).wf(),
            final(self).sent() == old(self).sent(),
            final(self).refused() == old(self).refused(),
            final(self).polls() == if old(self).polls() < u64::MAX {
                old(self).polls() + 1
            } else {
                0
            },
            if final(self).polls() % POLL_STRIDE as int == 0 {
                final(self).seen() == old(self).seen().push(r)
            } else {
                !r && final(self).seen() == old(self).seen()
            },
            final(self).told_to_stop() == (old(self).told_to_stop() || r),
    {
        self.counter = self.counter.wrapping_add(1);
        if self.counter % POLL_STRIDE == 0 {
            self.poll_now()
        } else {
            false
        }
    }

    /// Hand over one result. `false` where nobody takes it any more.
    pub fn send(&mut self, item: T) -> (r: bool)
        requires
            old(self).wf(),
            old(self).sent().len() < usize::MAX,
        ensures
            final(self).wf(),
            final(self).seen() == old(self).seen(),
            final(self).polls() == old(self).polls(),
            final(self).refused() == (old(self).refused() || !r),
            r ==> final(self).sent() == old(self).sent().push(item),
            r ==> final(self).told_to_stop() == old(self).told_to_stop(),
            !r ==> final(self).sent() == old(self).sent() && final(self).told_to_stop(),
    {
        if self.channel.hand_over(item) {
            self.found = self.found + 1;
            true
        } else {
            self.stopped = true;
            false
        }
    }
}

/// What holds after a part of a walk that should add `all` to the results
/// `before`, of which there can be `cap`: it has added the first ones. It bails
/// only where it was told to stop or there is no room left, and otherwise has
/// added all of them.
pub open spec fn progress<V>(
    before: Seq<V>,
    all: Seq<V>,
    after: Seq<V>,
    cap: int,
    stopped: bool,
    bail: bool,
) -> bool {
    let want = before + all;
    &&& before.len() <= after.len() <= want.len()
    &&& after.len() <= cap
    &&& after == want.take(after.len() as int)
    &&& !bail ==> !stopped && after == want
    &&& bail && !stopped ==> after.len() == cap
}

/// What holds at the end of a walk that should find `all`: the channel has taken
/// the first of them, in order, and all that there is room for unless the walk
/// was told to stop.
pub open spec fn outcome<V>(all: Seq<V>, sent: Seq<V>, cap: int, stopped: bool) -> bool {
    &&& sent.len() <= all.len()
    &&& sent.len() <= cap
    &&& sent == all.take(sent.len() as int)
    &&& !stopped ==> sent.len() == cap || sent.len() == all.len()
}

pub proof fn lemma_progress_step<V>(
    before: Seq<V>,
    first: Seq<V>,
    mid: Seq<V>,
    rest: Seq<V>,
    after: Seq<V>,
    cap: int,
    stopped: bool,
    bail: bool,
)
    requires
        progress(before, first, mid, cap, false, false),
        progress(mid, rest, after, cap, stopped, bail),
    ensures
        progress(before, first + rest, after, cap, stopped, bail),
{
    assert(before + (first + rest) =~= mid + rest);
}

pub proof fn lemma_progress_bail<V>(
    before: Seq<V>,
    first: Seq<V>,
    rest: Seq<V>,
    after: Seq<V>,
    cap: int,
    stopped: bool,
)
    requires
        progress(before, first, after, cap, stopped, true),
    ensures
        progress(before, first + rest, after, cap, stopped, true),
{
    let k = after.len() as int;
    assert((before + (first + rest)).take(k) =~= (before + first).take(k));
}

pub proof fn lemma_progress_none<V>(before: Seq<V>, cap: int)
    requires
        before.len() <= cap,
    ensures
        progress(before, Seq::empty(), before, cap, false, false),
{
    assert(before + Seq::<V>::empty() =~= before);
    assert(before.take(before.len() as int) =~= before);
}

/// Nothing was added by a walk that was told to stop.
pub proof fn lemma_progress_stopped<V>(before: Seq<V>, all: Seq<V>, cap: int)
    requires
        before.len() <= cap,
    ensures
        progress(before, all, before, cap, true, true),
        before.len() == cap ==> progress(before, all, before, cap, false, true),
{
    assert((before + all).take(before.len() as int) =~= before);
}

} // verus!
