//! The two ends that a background walk holds: the sending half of a channel and a flag
//! that another thread may raise. Each remembers what went through it.

use std::sync::atomic::{AtomicBool, Ordering};
use std::sync::mpsc::Sender;
use vstd::prelude::*;

verus! {

/// Trusted: `std::sync::mpsc::Sender`, the sending half of a channel.
#[verifier::external_type_specification]
#[verifier::external_body]
#[verifier::reject_recursive_types(T)]
pub struct ExSender<T>(Sender<T>);

/// The sending half of a channel, and what the channel has taken through it.
#[verifier::reject_recursive_types(T)]
pub struct Channel<'a, T> {
    tx: &'a Sender<T>,
    sent: Ghost<Seq<T>>,
    refused: Ghost<bool>,
}

impl<'a, T> Channel<'a, T> {
    /// What the channel has taken so far.
    pub closed spec fn sent(&self) -> Seq<T> {
        self.sent@
    }

    /// Whether the channel has turned anything down.
    pub closed spec fn refused(&self) -> bool {
        self.refused@
    }

    pub fn new(tx: &'a Sender<T>) -> (r: Self)
        ensures
            r.sent() == Seq::<T>::empty(),
            !r.refused(),
    {
        Channel { tx, sent: Ghost(Seq::empty()), refused: Ghost(false) }
    }

    /// Trusted: `Sender::send` hands `item` to the channel, which takes it behind what
    /// it has taken before, or fails and takes nothing where nobody will receive it any
    /// more. Which of the two is up to the receiver.
    #[verifier::external_body]
    pub(crate) fn hand_over(&mut self, item: T) -> (r: bool)
        ensures
            final(self).sent() == if r {
                old(self).sent().push(item)
            } else {
                old(self).sent()
            },
            final(self).refused() == (old(self).refused() || !r),
    {
        self.tx.send(item).is_ok()
    }
}

/// A flag that another thread may raise, and what it showed so far.
pub struct Flag<'a> {
    flag: &'a AtomicBool,
    seen: Ghost<Seq<bool>>,
}

impl<'a> Flag<'a> {
    /// What the flag showed, each time it was looked at.
    pub closed spec fn seen(&self) -> Seq<bool> {
        self.seen@
    }

    pub fn new(flag: &'a AtomicBool) -> (r: Self)
        ensures
            r.seen() == Seq::<bool>::empty(),
    {
        Flag { flag, seen: Ghost(Seq::empty()) }
    }

    /// Trusted: `AtomicBool::load` is one look at the flag, and its result is what the
    /// flag showed. What that is is up to whoever may raise it.
    #[verifier::external_body]
    pub(crate) fn look(&mut self) -> (r: bool)
        ensures
            final(self).seen() == old(self).seen().push(r),
    {
        self.flag.load(Ordering::Relaxed)
    }
}

} // verus!
