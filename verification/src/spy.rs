//! A spy for tests: it stands in for a function, records each call, and
//! answers from a queue of prepared values or, where the queue is empty,
//! from a default.

use std::collections::VecDeque;
use vstd::prelude::*;

verus! {

/// One recorded call.
#[derive(Debug, Clone)]
pub struct SpyCall<P: Clone> {
    pub params: P,
}

impl<P: Clone> SpyCall<P> {
    /// The record of a call with these parameters.
    pub fn new(params: P) -> (call: SpyCall<P>)
        ensures
            call.params == params,
    {
        Self { params }
    }
}

/// The spy.
pub struct Spy<P: Clone, R, F> {
    calls: Vec<SpyCall<P>>,
    return_next: VecDeque<R>,
    default_return: F,
}

impl<P: Clone, R, F: Fn(&P) -> R> Spy<P, R, F> {
    /// The calls recorded so far, the oldest first.
    pub closed spec fn recorded(&self) -> Seq<SpyCall<P>> {
        self.calls@
    }

    /// The prepared answers that wait, the next one first.
    pub closed spec fn queued(&self) -> Seq<R> {
        self.return_next@
    }

    /// The function that answers where no prepared answer waits.
    pub closed spec fn default_fn(&self) -> F {
        self.default_return
    }

    /// Creates a new spy.
    pub fn new(default_return: F) -> (spy: Self)
        ensures
            spy.recorded().len() == 0,
            spy.queued().len() == 0,
            spy.default_fn() == default_return,
    {
        Spy { calls: Vec::new(), return_next: VecDeque::new(), default_return }
    }

    /// Registers a call for the spy and returns the relevant return value:
    /// the next prepared answer, or the default's answer where none waits.
    pub fn register_call(&mut self, params: P) -> (r: R)
        requires
            old(self).queued().len() == 0 ==> call_requires(old(self).default_fn(), (&params,)),
        ensures
            final(self).recorded() == old(self).recorded().push(SpyCall { params }),
            final(self).default_fn() == old(self).default_fn(),
            old(self).queued().len() > 0 ==> r == old(self).queued()[0] && final(self).queued() == old(self).queued().skip(1),
            old(self).queued().len() == 0 ==> call_ensures(old(self).default_fn(), (&params,), r) && final(self).queued() == old(self).queued(),
    {
        let return_value = match self.return_next.pop_front() {
            Some(v) => v,
            None => (self.default_return)(&params),
        };
        self.calls.push(SpyCall::new(params));
        return_value
    }

    /// Registers a call and returns the next prepared answer, if one waits.
    pub fn register_call_return_next(&mut self, params: P) -> (r: Option<R>)
        ensures
            final(self).recorded() == old(self).recorded().push(SpyCall { params }),
            final(self).default_fn() == old(self).default_fn(),
            old(self).queued().len() > 0 ==> r == Some(old(self).queued()[0]) && final(self).queued() == old(self).queued().skip(1),
            old(self).queued().len() == 0 ==> r is None && final(self).queued() == old(self).queued(),
    {
        self.calls.push(SpyCall::new(params));
        self.return_next.pop_front()
    }

    /// Updates the default return value for the spy.
    pub fn return_default(&mut self, new_default: F)
        ensures
            final(self).default_fn() == new_default,
            final(self).recorded() == old(self).recorded(),
            final(self).queued() == old(self).queued(),
    {
        self.default_return = new_default;
    }

    /// Adds a return value to be returned from the spy next, behind those
    /// that wait already.
    pub fn return_next(&mut self, value: R)
        ensures
            final(self).queued() == old(self).queued().push(value),
            final(self).recorded() == old(self).recorded(),
            final(self).default_fn() == old(self).default_fn(),
    {
        self.return_next.push_back(value);
    }

    /// Resets the spy: the recorded calls and the prepared answers are
    /// dropped, the default stays.
    pub fn reset(&mut self)
        ensures
            final(self).recorded().len() == 0,
            final(self).queued().len() == 0,
            final(self).default_fn() == old(self).default_fn(),
    {
        self.calls.clear();
        self.return_next.clear();
    }

    /// Gets all calls to the spied function so values can be asserted.
    pub fn calls(&self) -> (calls: &Vec<SpyCall<P>>)
        ensures
            calls@ == self.recorded(),
    {
        &self.calls
    }
}

} // verus!
