//! The decisions of a fixed-size worker pool: which workers to start, what a
//! worker does with a message, and the order of a graceful teardown.

use vstd::prelude::*;

verus! {

/// What a worker receives from the shared queue.
pub enum Message<J> {
    /// A job to run.
    NewJob(J),
    /// Stop looping and exit.
    Terminate,
}

/// The job a worker runs for a message, or `None` where the worker must exit.
pub fn job_of<J>(m: Message<J>) -> (r: Option<J>)
    ensures
        r == match m {
            Message::NewJob(j) => Some(j),
            Message::Terminate => None::<J>,
        },
{
    match m {
        Message::NewJob(j) => Some(j),
        Message::Terminate => None,
    }
}

/// The ids of the workers of a pool of `size`: one per worker, `0` to
/// `size - 1`, in order.
pub fn worker_ids(size: usize) -> (r: Vec<usize>)
    requires
        size > 0,
    ensures
        r@.len() == size,
        forall|i: int| 0 <= i < size ==> #[trigger] r@[i] == i,
{
    let mut ids: Vec<usize> = Vec::with_capacity(size);
    let mut i: usize = 0;
    while i < size
        invariant
            i <= size,
            ids@.len() == i,
            forall|k: int| 0 <= k < i ==> #[trigger] ids@[k] == k,
        decreases size - i,
    {
        ids.push(i);
        i = i + 1;
    }
    ids
}

/// One step of a pool's teardown.
#[derive(Debug, Clone, Copy, PartialEq, Eq, Structural)]
pub enum TeardownStep {
    /// Send one termination message on the shared queue.
    SendTerminate,
    /// Wait for the worker of this index to exit.
    Join(usize),
    /// Every worker has exited.
    Finished,
}

/// The step at position `pos` of the teardown of a pool of `size` workers: one
/// termination message per worker, then each worker joined in turn, in the
/// order the pool holds them.
pub open spec fn teardown_step(size: nat, pos: nat) -> TeardownStep {
    if pos < size {
        TeardownStep::SendTerminate
    } else if pos < 2 * size {
        TeardownStep::Join((pos - size) as usize)
    } else {
        TeardownStep::Finished
    }
}

/// Where a pool's teardown stands.
pub struct Teardown {
    size: usize,
    sent: usize,
    joined: usize,
}

impl Teardown {
    /// The number of workers.
    pub closed spec fn spec_size(&self) -> nat {
        self.size as nat
    }

    /// The number of steps taken so far.
    pub closed spec fn position(&self) -> nat {
        (self.sent + self.joined) as nat
    }

    /// No worker is joined before every termination message is sent, and no
    /// count passes the pool's size.
    pub closed spec fn wf(&self) -> bool {
        &&& self.sent <= self.size
        &&& self.joined <= self.size
        &&& self.joined > 0 ==> self.sent == self.size
    }

    /// The teardown of a pool of `size` workers, before its first step.
    pub fn new(size: usize) -> (r: Teardown)
        requires
            size > 0,
        ensures
            r.wf(),
            r.spec_size() == size,
            r.position() == 0,
    {
        Teardown { size, sent: 0, joined: 0 }
    }

    /// The next step to take. Once finished, the teardown stays finished.
    pub fn next_step(&mut self) -> (r: TeardownStep)
        requires
            old(self).wf(),
        ensures
            final(self).wf(),
            final(self).spec_size() == old(self).spec_size(),
            r == teardown_step(old(self).spec_size(), old(self).position()),
            final(self).position() == if r == TeardownStep::Finished {
                old(self).position()
            } else {
                old(self).position() + 1
            },
    {
        if self.sent < self.size {
            self.sent = self.sent + 1;
            TeardownStep::SendTerminate
        } else if self.joined < self.size {
            let w = self.joined;
            self.joined = self.joined + 1;
            TeardownStep::Join(w)
        } else {
            TeardownStep::Finished
        }
    }
}

/// A teardown sends exactly one termination message per worker before any
/// join, then joins every worker exactly once, and only then is finished.
pub proof fn lemma_teardown_joins_every_worker(size: nat)
    requires
        0 < size <= usize::MAX,
    ensures
        forall|p: nat| p < size ==> teardown_step(size, p) == TeardownStep::SendTerminate,
        forall|p: nat| size <= p ==> teardown_step(size, p) != TeardownStep::SendTerminate,
        forall|p: nat|
            size <= p < 2 * size ==> #[trigger] teardown_step(size, p) == TeardownStep::Join(
                (p - size) as usize,
            ),
        forall|p: nat, q: nat|
            p < 2 * size && q < 2 * size && #[trigger] teardown_step(size, p) == #[trigger] teardown_step(
                size,
                q,
            ) && teardown_step(size, p) is Join ==> p == q,
        forall|p: nat|
            #[trigger] teardown_step(size, p) is Join ==> (teardown_step(size, p)->Join_0 as nat)
                < size,
        forall|p: nat| 2 * size <= p ==> teardown_step(size, p) == TeardownStep::Finished,
        forall|p: nat| p < 2 * size ==> teardown_step(size, p) != TeardownStep::Finished,
{
}

} // verus!
