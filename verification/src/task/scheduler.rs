//! The scheduler: the queue of the tasks that are ready to run, first in
//! first out, and the count of timer ticks within a time slice. A time
//! slice is one tick: every timer tick ends it.

use vstd::prelude::*;

verus! {

/// Number of timer ticks in a time slice: the task that runs is
/// preempted on every tick.
pub const TIME_SLICE: usize = 1;

/// The ready queue and the tick count.
pub struct Scheduler {
    time_slice: usize,
    current_time_slice: usize,
    ready: Vec<usize>,
}

impl Scheduler {
    /// The tasks that are ready to run, the next one first.
    pub closed spec fn queue(&self) -> Seq<usize> {
        self.ready@
    }

    /// Number of ticks in a time slice.
    pub closed spec fn slice_len(&self) -> usize {
        self.time_slice
    }

    /// Number of ticks since the time slice began.
    pub closed spec fn ticks(&self) -> usize {
        self.current_time_slice
    }

    /// The tick count lies within the time slice.
    pub open spec fn wf(&self) -> bool {
        self.ticks() < self.slice_len() && self.slice_len() == TIME_SLICE
    }

    /// A scheduler with an empty queue, at the beginning of a time slice.
    pub fn new() -> (r: Self)
        ensures
            r.wf(),
            r.queue().len() == 0,
            r.ticks() == 0,
    {
        Scheduler { time_slice: TIME_SLICE, current_time_slice: 0, ready: Vec::new() }
    }

    /// Puts task `pid` at the end of the queue.
    pub fn enqueue(&mut self, pid: usize)
        ensures
            final(self).queue() == old(self).queue().push(pid),
            final(self).ticks() == old(self).ticks(),
            final(self).slice_len() == old(self).slice_len(),
    {
        self.ready.push(pid);
    }

    /// Takes the task at the head of the queue, if there is one.
    pub fn schedule_next(&mut self) -> (r: Option<usize>)
        ensures
            final(self).ticks() == old(self).ticks(),
            final(self).slice_len() == old(self).slice_len(),
            match r {
                Some(pid) => old(self).queue().len() > 0 && pid == old(self).queue()[0]
                    && final(self).queue() == old(self).queue().subrange(
                    1,
                    old(self).queue().len() as int,
                ),
                None => old(self).queue().len() == 0 && *final(self) == *old(self),
            },
    {
        if self.ready.len() == 0 {
            None
        } else {
            let pid = self.ready.remove(0);
            proof {
                assert(self.ready@ =~= old(self).ready@.subrange(1, old(self).ready@.len() as int));
            }
            Some(pid)
        }
    }

    /// Number of tasks in the queue.
    pub fn ready_count(&self) -> (r: usize)
        ensures
            r == self.queue().len(),
    {
        self.ready.len()
    }

    /// Counts a timer tick, and says whether the time slice is over; the
    /// count begins again then. With a slice of one tick every tick ends
    /// the slice.
    pub fn tick(&mut self) -> (r: bool)
        requires
            old(self).wf(),
        ensures
            final(self).wf(),
            final(self).queue() == old(self).queue(),
            final(self).slice_len() == old(self).slice_len(),
            r,
            r == (old(self).ticks() + 1 == old(self).slice_len()),
            final(self).ticks() == (if r {
                0
            } else {
                old(self).ticks() + 1
            }),
    {
        self.current_time_slice = self.current_time_slice + 1;
        if self.current_time_slice >= self.time_slice {
            self.current_time_slice = 0;
            true
        } else {
            false
        }
    }

    /// Begins the time slice again.
    pub fn reset_time_slice(&mut self)
        ensures
            final(self).ticks() == 0,
            final(self).slice_len() == old(self).slice_len(),
            final(self).queue() == old(self).queue(),
    {
        self.current_time_slice = 0;
    }
}

} // verus!
