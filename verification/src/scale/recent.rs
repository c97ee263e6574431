//! What a ruler remembers between calls: its latest observations, and what came
//! of its latest solves.

use std::collections::VecDeque;

use vstd::prelude::*;

verus! {

/// The latest observations, oldest first, never more than a capacity.
#[derive(Debug)]
pub struct RecentLog<T> {
    items: VecDeque<T>,
    capacity: usize,
}

impl<T> View for RecentLog<T> {
    type V = Seq<T>;

    closed spec fn view(&self) -> Seq<T> {
        self.items@
    }
}

/// A log with one more item: the oldest makes room once it is full. A capacity of
/// zero counts as one.
pub open spec fn appended<T>(items: Seq<T>, capacity: nat, item: T) -> Seq<T> {
    let limit = if capacity < 1 {
        1
    } else {
        capacity
    };
    if items.len() >= limit {
        items.subrange(1, items.len() as int).push(item)
    } else {
        items.push(item)
    }
}

impl<T> RecentLog<T> {
    /// How many observations are kept.
    pub closed spec fn limit(&self) -> nat {
        self.capacity as nat
    }

    /// An empty log.
    pub fn new(capacity: usize) -> (log: RecentLog<T>)
        ensures
            log@ == Seq::<T>::empty(),
            log.limit() == capacity,
    {
        RecentLog { items: VecDeque::new(), capacity }
    }

    /// Keep another number of observations from now on. What is there stays until
    /// it is pushed out.
    pub fn set_capacity(&mut self, capacity: usize)
        ensures
            final(self)@ == old(self)@,
            final(self).limit() == capacity,
    {
        self.capacity = capacity;
    }

    /// How many observations there are.
    pub fn len(&self) -> (n: usize)
        ensures
            n == self@.len(),
    {
        self.items.len()
    }

    /// Whether there are none.
    pub fn is_empty(&self) -> (empty: bool)
        ensures
            empty == (self@.len() == 0),
    {
        self.items.len() == 0
    }

    /// Observation `i`, the oldest first.
    pub fn get(&self, i: usize) -> (item: Option<&T>)
        ensures
            item is Some <==> i < self@.len(),
            item matches Some(x) ==> *x == self@[i as int],
    {
        if i < self.items.len() {
            Some(&self.items[i])
        } else {
            None
        }
    }

    /// Take an observation in.
    pub fn push(&mut self, item: T)
        ensures
            final(self)@ == appended(old(self)@, old(self).limit(), item),
            final(self).limit() == old(self).limit(),
    {
        if self.items.len() >= self.capacity {
            let _ = self.items.pop_front();
        }
        self.items.push_back(item);
        assert(self.items@ =~= appended(old(self)@, old(self).limit(), item));
    }

    /// Forget everything.
    pub fn clear(&mut self)
        ensures
            final(self)@ == Seq::<T>::empty(),
            final(self).limit() == old(self).limit(),
    {
        self.items = VecDeque::new();
    }
}

/// An empty log after a list of items has been pushed.
pub open spec fn filled<T>(capacity: nat, items: Seq<T>) -> Seq<T>
    decreases items.len(),
{
    if items.len() == 0 {
        seq![]
    } else {
        appended(filled(capacity, items.drop_last()), capacity, items.last())
    }
}

/// The log never grows beyond its capacity.
pub proof fn law_log_is_bounded<T>(items: Seq<T>, capacity: nat, item: T)
    requires
        capacity >= 1,
        items.len() <= capacity,
    ensures
        appended(items, capacity, item).len() <= capacity,
{
}

/// The log holds exactly the latest items, in the order in which they came.
pub proof fn law_log_holds_the_latest<T>(capacity: nat, items: Seq<T>)
    requires
        capacity >= 1,
    ensures
        filled(capacity, items) =~= (if items.len() <= capacity {
            items
        } else {
            items.subrange(items.len() - capacity, items.len() as int)
        }),
    decreases items.len(),
{
    if items.len() > 0 {
        law_log_holds_the_latest(capacity, items.drop_last());
    }
}

/// What came of the latest solves: the last solution, and why the last call
/// declined, if it did.
#[derive(Debug)]
pub struct SolveLog<S, R> {
    solution: Option<S>,
    rejection: Option<R>,
}

impl<S, R> SolveLog<S, R> {
    /// The last solution.
    pub closed spec fn solved(&self) -> Option<S> {
        self.solution
    }

    /// Why the last call declined.
    pub closed spec fn rejected(&self) -> Option<R> {
        self.rejection
    }

    /// Nothing has been solved yet.
    pub fn new() -> (log: SolveLog<S, R>)
        ensures
            log.solved() is None,
            log.rejected() is None,
    {
        SolveLog { solution: None, rejection: None }
    }

    /// Take note of a solve. A solution clears the rejection; a rejection leaves
    /// the last solution for inspection, and gives no answer.
    pub fn record(&mut self, outcome: Result<S, R>) -> (answered: bool)
        ensures
            answered == outcome is Ok,
            match outcome {
                Ok(s) => final(self).solved() == Some(s) && final(self).rejected() is None,
                Err(r) => final(self).solved() == old(self).solved() && final(self).rejected()
                    == Some(r),
            },
    {
        match outcome {
            Ok(s) => {
                self.solution = Some(s);
                self.rejection = None;
                true
            },
            Err(r) => {
                self.rejection = Some(r);
                false
            },
        }
    }

    /// The last solution.
    pub fn last_solution(&self) -> (solution: Option<&S>)
        ensures
            solution == (match self.solved() {
                Some(s) => Some(&s),
                None => None,
            }),
    {
        match &self.solution {
            Some(s) => Some(s),
            None => None,
        }
    }

    /// Why the last call declined.
    pub fn last_rejection(&self) -> (rejection: Option<&R>)
        ensures
            rejection == (match self.rejected() {
                Some(r) => Some(&r),
                None => None,
            }),
    {
        match &self.rejection {
            Some(r) => Some(r),
            None => None,
        }
    }

    /// Forget everything.
    pub fn reset(&mut self)
        ensures
            final(self).solved() is None,
            final(self).rejected() is None,
    {
        self.solution = None;
        self.rejection = None;
    }
}

/// A new observation is always taken in, as the latest, and what is kept keeps its
/// order; a log that is to keep nothing keeps the latest.
pub proof fn law_latest_is_always_taken_in<T>(items: Seq<T>, capacity: nat, item: T, i: int)
    requires
        items.len() <= capacity || items.len() <= 1,
    ensures
        ({
            let after = appended(items, capacity, item);
            let gone = items.len() + 1 - after.len();
            &&& after.len() >= 1 && after.last() == item
            &&& items.len() < capacity ==> after.len() == items.len() + 1
            &&& items.len() == capacity && capacity > 0 ==> after.len() == capacity
            &&& capacity == 0 ==> after.len() == 1
            &&& 0 <= i < after.len() - 1 ==> after[i] == items[i + gone]
        }),
{
}

} // verus!
