//! The synchronized worklist underpinning the parallel traversals, as a
//! sequential state machine: a LIFO of pending items, a count of outstanding
//! jobs (queued and in flight), and a one-way shutdown flag.  A concurrent
//! driver wraps a value of this type in a lock and blocks where
//! [`pop`][JobStack::pop] says to wait.
use vstd::prelude::*;

verus! {

/// What a consumer should do after asking for work.
pub enum PopOutcome<T> {
    /// Take this item; call [`JobStack::job_done`] exactly once for it.
    Item(T),
    /// No work will ever arrive: terminate.
    Done,
    /// The queue is momentarily empty but jobs are in flight: wait.
    Wait,
}

/// The job stack's state.  The job count never falls below the queue's
/// length, and a shut-down stack holds no queued items.
pub struct JobStack<T> {
    queue: Vec<T>,
    jobs: usize,
    shutdown: bool,
}

impl<T> JobStack<T> {
    /// The queued items, oldest first; the last is popped next.
    pub closed spec fn queued(&self) -> Seq<T> {
        self.queue@
    }

    /// Outstanding jobs: queued plus popped-but-not-done.
    pub closed spec fn jobs(&self) -> nat {
        self.jobs as nat
    }

    /// Whether the stack was shut down.
    pub closed spec fn is_shut(&self) -> bool {
        self.shutdown
    }

    /// The accounting invariant.
    pub open spec fn wf(&self) -> bool {
        &&& self.jobs() >= self.queued().len()
        &&& (self.is_shut() ==> self.queued().len() == 0)
    }

    /// Seed the stack: every initial item is an outstanding job.
    pub fn new(items: Vec<T>) -> (r: JobStack<T>)
        ensures
            r.wf(),
            r.queued() == items@,
            r.jobs() == items@.len(),
            !r.is_shut(),
    {
        let jobs = items.len();
        JobStack { queue: items, jobs, shutdown: false }
    }

    /// Append items and account for them, unless the stack was shut down.
    pub fn extend(&mut self, items: Vec<T>)
        requires
            old(self).wf(),
            old(self).jobs() + items@.len() <= usize::MAX,
        ensures
            final (self).wf(),
            final (self).is_shut() == old(self).is_shut(),
            old(self).is_shut() ==> final (self).queued() == old(self).queued() && final(self).jobs() == old(self).jobs(),
            !old(self).is_shut() ==> final (self).queued() == old(self).queued() + items@ && final(self).jobs() == old(self).jobs() + items@.len(),
    {
        if self.shutdown {
            return ;
        }
        let k = items.len();
        let mut more = items;
        self.jobs = self.jobs + k;
        self.queue.append(&mut more);
    }

    /// Append one item, unless the stack was shut down.
    pub fn push(&mut self, item: T)
        requires
            old(self).wf(),
            old(self).jobs() + 1 <= usize::MAX,
        ensures
            final (self).wf(),
            final (self).is_shut() == old(self).is_shut(),
            old(self).is_shut() ==> final (self).queued() == old(self).queued() && final(self).jobs() == old(self).jobs(),
            !old(self).is_shut() ==> final (self).queued() == old(self).queued().push(item)
                && final (self).jobs() == old(self).jobs() + 1,
    {
        if self.shutdown {
            return ;
        }
        self.jobs = self.jobs + 1;
        self.queue.push(item);
    }

    /// Ask for work: an item when one is queued, termination when no job is
    /// outstanding or the stack was shut down, and a wait otherwise.
    pub fn pop(&mut self) -> (r: PopOutcome<T>)
        requires
            old(self).wf(),
        ensures
            final (self).wf(),
            final (self).is_shut() == old(self).is_shut(),
            final (self).jobs() == old(self).jobs(),
            (old(self).jobs() == 0 || old(self).is_shut()) ==> (r is Done && final (self).queued()
                == old(self).queued()),
            !(old(self).jobs() == 0 || old(self).is_shut()) && old(self).queued().len() > 0 ==> (
            r matches PopOutcome::Item(x) && x == old(self).queued().last() && final (self).queued()
                == old(self).queued().drop_last()),
            !(old(self).jobs() == 0 || old(self).is_shut()) && old(self).queued().len() == 0 ==> (
            r is Wait && final (self).queued() == old(self).queued()),
    {
        if self.jobs == 0 || self.shutdown {
            return PopOutcome::Done;
        }
        match self.queue.pop() {
            Some(x) => PopOutcome::Item(x),
            None => PopOutcome::Wait,
        }
    }

    /// Account for one finished job.  The discipline: call this exactly once
    /// per popped item, after pushing whatever new work the item produced.
    pub fn job_done(&mut self)
        requires
            old(self).wf(),
            old(self).jobs() > old(self).queued().len(),
        ensures
            final (self).wf(),
            final (self).is_shut() == old(self).is_shut(),
            final (self).queued() == old(self).queued(),
            final (self).jobs() == old(self).jobs() - 1,
    {
        self.jobs = self.jobs - 1;
    }

    /// Shut the stack down: drop the queued items from the accounting and
    /// refuse all future work.  Shutting down twice changes nothing.
    pub fn shutdown(&mut self)
        requires
            old(self).wf(),
        ensures
            final (self).wf(),
            final (self).is_shut(),
            final (self).queued().len() == 0,
            !old(self).is_shut() ==> final (self).jobs() == old(self).jobs() - old(self).queued().len(),
            old(self).is_shut() ==> final (self).jobs() == old(self).jobs(),
    {
        if !self.shutdown {
            self.jobs = self.jobs - self.queue.len();
            self.queue.clear();
            self.shutdown = true;
        }
    }

    /// The current job count.
    pub fn job_count(&self) -> (r: usize)
        ensures
            r == self.jobs(),
    {
        self.jobs
    }

    /// The current queue length.
    pub fn queue_len(&self) -> (r: usize)
        ensures
            r == self.queued().len(),
    {
        self.queue.len()
    }

    /// Whether the stack was shut down.
    pub fn is_shutdown(&self) -> (r: bool)
        ensures
            r == self.is_shut(),
    {
        self.shutdown
    }
}

} // verus!
