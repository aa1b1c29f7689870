//! Dispatch decisions of the background worker pool: which worker channel a
//! task goes to, and which tasks wait.
//!
//! Each worker channel may hold at most `MAX_TASKS_IN_FLIGHT` tasks, so tasks on
//! one channel run in the order they were sent. Channels are tried round-robin
//! from the one after the channel last published to; tasks that find every
//! channel full wait in a first-in, first-out queue. The caller does the sending
//! and reports back.

use vstd::prelude::*;
use std::collections::VecDeque;

verus! {

/// Tasks a worker channel may hold at once.
pub const MAX_TASKS_IN_FLIGHT: usize = 1;

/// Whether channel `c` can take a task.
pub open spec fn channel_free(in_flight: Seq<usize>, c: int) -> bool {
    in_flight[c] < MAX_TASKS_IN_FLIGHT
}

/// Steps from `start` to `c` going round the `n` channels.
pub open spec fn steps(start: int, c: int, n: int) -> int {
    if c >= start {
        c - start
    } else {
        c + n - start
    }
}

/// Channel `k` steps after `start`.
pub open spec fn after(start: int, k: int, n: int) -> int {
    if start + k < n {
        start + k
    } else {
        start + k - n
    }
}

/// The channel round-robin dispatch picks: the first free one at or after
/// `start`, if any.
pub open spec fn picks(in_flight: Seq<usize>, start: int, r: Option<usize>) -> bool {
    let n = in_flight.len() as int;
    match r {
        Some(c) => {
            &&& 0 <= c < n
            &&& channel_free(in_flight, c as int)
            &&& forall|k: int| 0 <= k < steps(start, c as int, n) ==> !channel_free(in_flight, #[trigger] after(start, k, n))
        },
        None => forall|c: int| 0 <= c < n ==> !channel_free(in_flight, c),
    }
}

/// Tasks waiting for a channel and the load of each channel.
pub struct TaskScheduler<T> {
    in_flight: Vec<usize>,
    queued_tasks: VecDeque<T>,
    current_channel: usize,
}

impl<T> TaskScheduler<T> {
    /// Tasks in flight on each channel.
    pub closed spec fn loads(&self) -> Seq<usize> {
        self.in_flight@
    }

    /// Waiting tasks, oldest first.
    pub closed spec fn queue(&self) -> Seq<T> {
        self.queued_tasks@
    }

    /// Where the next round-robin search starts.
    pub closed spec fn start(&self) -> int {
        self.current_channel as int
    }

    pub closed spec fn wf(&self) -> bool {
        self.in_flight@.len() == 0 || self.current_channel < self.in_flight@.len()
    }

    /// A scheduler over `num_workers` idle channels with nothing queued.
    pub fn new(num_workers: usize) -> (r: TaskScheduler<T>)
        ensures
            r.wf(),
            r.loads() == Seq::new(num_workers as nat, |c: int| 0usize),
            r.queue().len() == 0,
            r.start() == 0,
    {
        let mut in_flight: Vec<usize> = Vec::new();
        let mut i: usize = 0;
        while i < num_workers
            invariant
                i <= num_workers,
                in_flight@ == Seq::new(i as nat, |c: int| 0usize),
            decreases num_workers - i,
        {
            in_flight.push(0);
            i = i + 1;
            proof {
                assert(in_flight@ =~= Seq::new(i as nat, |c: int| 0usize));
            }
        }
        TaskScheduler { in_flight, queued_tasks: VecDeque::new(), current_channel: 0 }
    }

    /// The number of worker channels.
    pub fn num_channels(&self) -> (r: usize)
        ensures
            r == self.loads().len(),
    {
        self.in_flight.len()
    }

    /// The number of waiting tasks.
    pub fn num_queued(&self) -> (r: usize)
        ensures
            r == self.queue().len(),
    {
        self.queued_tasks.len()
    }

    /// The first channel with room, going round from the search start.
    pub fn find_available_channel(&self) -> (r: Option<usize>)
        requires
            self.wf(),
        ensures
            picks(self.loads(), self.start(), r),
    {
        let n = self.in_flight.len();
        if n == 0 {
            return None;
        }
        let start = self.current_channel;
        let mut current = start;
        let mut k: usize = 0;
        while k < n
            invariant
                n == self.in_flight@.len(),
                start == self.current_channel,
                0 <= start < n,
                k <= n,
                k < n ==> current == after(start as int, k as int, n as int),
                forall|j: int| 0 <= j < k ==> !channel_free(self.in_flight@, #[trigger] after(start as int, j, n as int)),
            decreases n - k,
        {
            if self.in_flight[current] < MAX_TASKS_IN_FLIGHT {
                proof {
                    assert(steps(start as int, current as int, n as int) == k);
                    assert(self.loads() == self.in_flight@);
                    assert(self.start() == start);
                    assert forall|j: int| 0 <= j < steps(self.start(), current as int, self.loads().len() as int)
                        implies !channel_free(self.loads(), #[trigger] after(self.start(), j, self.loads().len() as int)) by {
                        assert(!channel_free(self.in_flight@, after(start as int, j, n as int)));
                    }
                }
                return Some(current);
            }
            current = if current + 1 == n {
                0
            } else {
                current + 1
            };
            k = k + 1;
        }
        proof {
            assert forall|c: int| 0 <= c < n implies !channel_free(self.in_flight@, c) by {
                let j = steps(start as int, c, n as int);
                assert(after(start as int, j, n as int) == c);
            }
        }
        None
    }

    /// Decides where a new task goes: `Some((channel, task))` to be sent now on
    /// the round-robin channel, or `None` when it was queued because every
    /// channel is full (or there are none). Nothing else changes: the caller
    /// reports the send with `task_sent` or gives the task back with
    /// `send_failed`.
    pub fn publish_task(&mut self, task: T) -> (r: Option<(usize, T)>)
        requires
            old(self).wf(),
        ensures
            final(self).wf(),
            final(self).loads() == old(self).loads(),
            final(self).start() == old(self).start(),
            match r {
                Some((c, t)) => {
                    &&& t == task
                    &&& picks(old(self).loads(), old(self).start(), Some(c))
                    &&& final(self).queue() == old(self).queue()
                },
                None => {
                    &&& picks(old(self).loads(), old(self).start(), None)
                    &&& final(self).queue() == old(self).queue().push(task)
                },
            },
    {
        match self.find_available_channel() {
            Some(channel_idx) => Some((channel_idx, task)),
            None => {
                self.queued_tasks.push_back(task);
                None
            },
        }
    }

    /// Records that a task was sent on `channel`; a send made by `publish_task`
    /// also moves the search start to the next channel.
    pub fn task_sent(&mut self, channel: usize, published: bool)
        requires
            old(self).wf(),
            channel < old(self).loads().len(),
            old(self).loads()[channel as int] < usize::MAX,
        ensures
            final(self).wf(),
            final(self).loads() == old(self).loads().update(channel as int, (old(self).loads()[channel as int] + 1) as usize),
            final(self).queue() == old(self).queue(),
            final(self).start() == if published {
                if channel + 1 == old(self).loads().len() {
                    0
                } else {
                    channel + 1
                }
            } else {
                old(self).start()
            },
    {
        self.in_flight.set(channel, self.in_flight[channel] + 1);
        assert(self.in_flight@.len() == old(self).in_flight@.len());
        if published {
            self.current_channel = if channel == self.in_flight.len() - 1 {
                0
            } else {
                channel + 1
            };
        }
    }

    /// Takes back a task whose send by `publish_task` failed: it waits at the
    /// back of the queue.
    pub fn send_failed(&mut self, task: T)
        requires
            old(self).wf(),
        ensures
            final(self).wf(),
            final(self).loads() == old(self).loads(),
            final(self).start() == old(self).start(),
            final(self).queue() == old(self).queue().push(task),
    {
        self.queued_tasks.push_back(task);
    }

    /// The next waiting task and the channel to send it on, if a task waits and a
    /// channel has room; the task leaves the queue.
    pub fn next_queued_task(&mut self) -> (r: Option<(usize, T)>)
        requires
            old(self).wf(),
        ensures
            final(self).wf(),
            final(self).loads() == old(self).loads(),
            final(self).start() == old(self).start(),
            match r {
                Some((c, t)) => {
                    &&& old(self).queue().len() > 0
                    &&& t == old(self).queue()[0]
                    &&& final(self).queue() == old(self).queue().subrange(1, old(self).queue().len() as int)
                    &&& picks(old(self).loads(), old(self).start(), Some(c))
                },
                None => {
                    &&& final(self).queue() == old(self).queue()
                    &&& (old(self).queue().len() == 0 || picks(old(self).loads(), old(self).start(), None))
                },
            },
    {
        if self.queued_tasks.len() == 0 {
            return None;
        }
        match self.find_available_channel() {
            None => None,
            Some(channel_idx) => {
                let task = self.queued_tasks.pop_front().unwrap();
                Some((channel_idx, task))
            },
        }
    }

    /// Puts back, at the front of the queue, a waiting task whose send failed.
    pub fn requeue_front(&mut self, task: T)
        requires
            old(self).wf(),
        ensures
            final(self).wf(),
            final(self).loads() == old(self).loads(),
            final(self).start() == old(self).start(),
            final(self).queue() == seq![task] + old(self).queue(),
    {
        self.queued_tasks.push_front(task);
        proof {
            assert(self.queued_tasks@ =~= seq![task] + old(self).queued_tasks@);
        }
    }

    /// Records that a task on `channel` finished.
    pub fn task_completed(&mut self, channel: usize)
        requires
            old(self).wf(),
            channel < old(self).loads().len(),
            old(self).loads()[channel as int] > 0,
        ensures
            final(self).wf(),
            final(self).loads() == old(self).loads().update(channel as int, (old(self).loads()[channel as int] - 1) as usize),
            final(self).queue() == old(self).queue(),
            final(self).start() == old(self).start(),
    {
        self.in_flight.set(channel, self.in_flight[channel] - 1);
    }
}

} // verus!
