//! A single-value channel with wake-up bookkeeping: consumers register a
//! waker token while no value is pending, and setting a value tells the
//! caller which tokens to wake. The asynchronous plumbing around it (real
//! wakers, futures, executors) lives with the host; the bookkeeping here
//! is the part that decides who is woken and what each poll yields.

use vstd::prelude::*;

verus! {

/// What one poll of an observable yields.
#[derive(Debug)]
pub enum PollResult<T> {
    /// A value is pending for this consumer.
    Ready(T),
    /// No value is pending; the consumer's token was registered.
    Pending,
}

/// An observable value: the current value, the waker tokens registered
/// since the last set, and how many consumers may still collect the most
/// recently set value.
#[derive(Debug)]
pub struct Observable<T> {
    pub id: u64,
    pub value: T,
    pub wakers: Vec<u64>,
    pub consumers: usize,
}

/// A pending read of an observable, identified by its consumer token.
#[derive(Debug, Clone, Copy, PartialEq, Eq, Structural)]
pub struct ObservableNext {
    pub id: u64,
}

impl<T> Observable<T> {
    /// A fresh observable holding `value`, with no registered wakers and
    /// no pending consumers.
    pub fn new(value: T) -> (r: Observable<T>)
        ensures
            r.id == 1,
            r.value == value,
            r.wakers@.len() == 0,
            r.consumers == 0,
    {
        Observable { id: 1, value, wakers: Vec::new(), consumers: 0 }
    }
}

impl<T: Clone> Observable<T> {
    /// Set a new value and collect the waker tokens to wake. Every
    /// registered waker is woken exactly once, and each woken consumer
    /// may collect the value through one later poll. Setting a value
    /// while earlier consumers are still collecting is a logic error and
    /// is ruled out up front.
    pub fn set_value(&mut self, value: T) -> (woken: Vec<u64>)
        requires
            old(self).consumers == 0,
        ensures
            final(self).id == old(self).id,
            final(self).value == value,
            final(self).wakers@.len() == 0,
            final(self).consumers == old(self).wakers@.len(),
            woken@ == old(self).wakers@,
    {
        let mut woken: Vec<u64> = Vec::new();
        core::mem::swap(&mut woken, &mut self.wakers);
        self.consumers = woken.len();
        self.value = value;
        woken
    }

    /// Poll for the most recently set value on behalf of consumer `id`:
    /// while woken consumers remain, hand each one a copy of the value;
    /// otherwise register the consumer's token for the next set. A token
    /// is registered at most once, so a consumer polling repeatedly
    /// before the next set is woken once and counted once.
    pub fn poll(&mut self, id: u64) -> (r: PollResult<T>)
        ensures
            final(self).id == old(self).id,
            final(self).value == old(self).value,
            old(self).consumers > 0 ==> {
                &&& final(self).consumers == old(self).consumers - 1
                &&& final(self).wakers@ == old(self).wakers@
                &&& (r matches PollResult::Ready(v) && vstd::pervasive::cloned::<T>(
                    old(self).value,
                    v,
                ))
            },
            old(self).consumers == 0 ==> {
                &&& r is Pending
                &&& final(self).consumers == 0
                &&& (old(self).wakers@.contains(id) ==> final(self).wakers@ == old(self).wakers@)
                &&& (!old(self).wakers@.contains(id) ==> final(self).wakers@ == old(
                    self,
                ).wakers@.push(id))
            },
    {
        if self.consumers > 0 {
            self.consumers = self.consumers - 1;
            PollResult::Ready(self.value.clone())
        } else {
            if !self.is_registered(id) {
                self.wakers.push(id);
            }
            PollResult::Pending
        }
    }

    /// Is the consumer token already registered for the next set?
    fn is_registered(&self, id: u64) -> (r: bool)
        ensures
            r == self.wakers@.contains(id),
    {
        let len = self.wakers.len();
        let mut k: usize = 0;
        loop
            invariant
                len == self.wakers@.len(),
                0 <= k <= len,
                forall|t: int| 0 <= t < k ==> self.wakers@[t] != id,
            ensures
                (k == len && !self.wakers@.contains(id)) || (k < len && self.wakers@[k as int]
                    == id),
            decreases len - k,
        {
            if k == len {
                proof {
                    if self.wakers@.contains(id) {
                        let w = choose|w: int| 0 <= w < len && self.wakers@[w] == id;
                        assert(false);
                    }
                }
                break;
            }
            if self.wakers[k] == id {
                break;
            }
            k = k + 1;
        }
        k < len
    }

    /// A pending read handle for this observable.
    pub fn next(&self) -> (r: ObservableNext)
        ensures
            r.id == self.id,
    {
        ObservableNext { id: self.id }
    }
}

} // verus!
