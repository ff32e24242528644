//! A bounded history queue: pushing beyond the limit drops the oldest entry.

use std::collections::VecDeque;

use vstd::prelude::*;
use vstd::std_specs::cmp::PartialEqSpec;

verus! {

pub struct Queue<T> {
    limit: usize,
    queue: VecDeque<T>,
}

impl<T> View for Queue<T> {
    type V = Seq<T>;

    closed spec fn view(&self) -> Seq<T> {
        self.queue@
    }
}

impl<T> Queue<T> {
    /// How many entries the queue keeps.
    pub closed spec fn cap(&self) -> nat {
        self.limit as nat
    }

    /// The queue never outgrows its limit. A queue with a limit of zero never
    /// reaches it, so nothing holds of one.
    pub open spec fn inv(&self) -> bool {
        self.cap() >= 1 ==> self@.len() <= self.cap()
    }

    /// An empty queue that keeps at most `limit` entries.
    pub fn with_capacity(limit: usize) -> (r: Self)
        ensures
            r@ =~= Seq::<T>::empty(),
            r.cap() == limit as nat,
            r.inv(),
    {
        Queue { limit, queue: VecDeque::with_capacity(limit) }
    }

    /// Appends an entry, dropping the oldest one when full.
    pub fn push(&mut self, val: T)
        ensures
            final(self).cap() == old(self).cap(),
            old(self).inv() ==> final(self).inv(),
            final(self)@ == if old(self)@.len() == old(self).cap() && old(self)@.len() > 0 {
                old(self)@.drop_first().push(val)
            } else {
                old(self)@.push(val)
            },
    {
        if self.queue.len() == self.limit {
            self.queue.pop_front();
        }
        self.queue.push_back(val);
        proof {
            if old(self)@.len() == old(self).cap() && old(self)@.len() > 0 {
                assert(self@ =~= old(self)@.drop_first().push(val));
            }
        }
    }

    /// Whether nothing is held.
    pub fn is_empty(&self) -> (r: bool)
        ensures
            r == (self@.len() == 0),
    {
        self.len() == 0
    }

    /// How many entries are held.
    pub fn len(&self) -> (r: usize)
        ensures
            r == self@.len(),
    {
        self.queue.len()
    }

    /// Whether the newest entry equals `item`.
    pub fn has(&self, item: &T) -> (r: bool) where T: PartialEq
        ensures
            self@.len() == 0 ==> r == false,
            T::obeys_eq_spec() ==> r == (self@.len() > 0 && self@.last().eq_spec(item)),
    {
        let n = self.queue.len();
        if n == 0 {
            return false;
        }
        self.queue[n - 1].eq(item)
    }

    /// The newest entry.
    pub fn last(&self) -> (r: Option<&T>)
        ensures
            r is Some <==> self@.len() > 0,
            r is Some ==> *r.unwrap() == self@.last(),
    {
        let n = self.queue.len();
        if n == 0 {
            return None;
        }
        Some(&self.queue[n - 1])
    }

    /// The `nth` newest entry, the newest being the zeroth.
    pub fn last_nth(&self, nth: usize) -> (r: Option<&T>)
        ensures
            r is Some <==> nth < self@.len(),
            r is Some ==> *r.unwrap() == self@[self@.len() - 1 - nth],
    {
        let n = self.queue.len();
        if nth < n {
            Some(&self.queue[n - 1 - nth])
        } else {
            None
        }
    }

    /// Every entry, newest first.
    pub fn iter(&self) -> (r: Vec<&T>)
        ensures
            r@.len() == self@.len(),
            forall|k: int|
                0 <= k < r@.len() ==> *(#[trigger] r@[k]) == self@[self@.len() - 1 - k],
    {
        let n = self.queue.len();
        let mut r: Vec<&T> = Vec::new();
        let mut i: usize = 0;
        while i < n
            invariant
                0 <= i <= n,
                n == self@.len(),
                n == self.queue@.len(),
                r@.len() == i,
                forall|k: int|
                    0 <= k < i ==> *(#[trigger] r@[k]) == self@[self@.len() - 1 - k],
            decreases n - i,
        {
            r.push(&self.queue[n - 1 - i]);
            i = i + 1;
        }
        r
    }
}

} // verus!
