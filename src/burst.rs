//! One readiness burst on a connection: the bytes drained from the socket
//! until it would block, and what to send back.

use vstd::prelude::*;

verus! {

/// The step by which the burst buffer grows, and its first size.
pub const GROW: usize = 4096;

/// What one non-blocking read gave. `Bytes` with no byte means that the peer
/// closed its side.
pub enum ReadOutcome {
    Bytes(Vec<u8>),
    WouldBlock,
    Interrupted,
    Failed,
}

/// What to do after a read.
#[derive(Debug, Clone, Copy, PartialEq, Eq, Structural)]
pub enum DrainStep {
    /// Read again at once.
    ReadAgain,
    /// The burst is complete: the socket would block or the peer closed.
    Done,
    /// The read failed: close the connection.
    Fatal,
}

/// The bytes drained from a connection in one readiness burst, held in a
/// buffer that grows by `GROW` bytes whenever it fills up.
pub struct Burst {
    buf: Vec<u8>,
    filled: usize,
    closed: bool,
}

impl Burst {
    /// The bytes read so far in this burst, in order.
    pub closed spec fn received(&self) -> Seq<u8> {
        self.buf@.subrange(0, self.filled as int)
    }

    /// The size of the buffer.
    pub closed spec fn spec_capacity(&self) -> nat {
        self.buf@.len()
    }

    /// The peer has closed its side.
    pub closed spec fn is_closed(&self) -> bool {
        self.closed
    }

    /// The buffer is a whole number of steps, and always has room left, at
    /// most one step of it.
    pub closed spec fn wf(&self) -> bool {
        &&& self.filled < self.buf@.len()
        &&& self.buf@.len() - self.filled <= GROW
        &&& self.buf@.len() % (GROW as nat) == 0
    }

    /// An empty burst with a buffer of one step.
    pub fn new() -> (r: Burst)
        ensures
            r.wf(),
            r.received() == Seq::<u8>::empty(),
            r.spec_capacity() == GROW,
            !r.is_closed(),
    {
        let buf: Vec<u8> = vec![0; GROW];
        let r = Burst { buf, filled: 0, closed: false };
        assert(r.received() =~= Seq::<u8>::empty());
        r
    }

    /// How many bytes the next read may hand over.
    pub fn spare(&self) -> (r: usize)
        requires
            self.wf(),
        ensures
            r == self.spec_capacity() - self.received().len(),
            0 < r <= GROW,
    {
        self.buf.len() - self.filled
    }

    /// The size of the buffer.
    pub fn capacity(&self) -> (r: usize)
        ensures
            r == self.spec_capacity(),
    {
        self.buf.len()
    }

    /// The number of bytes read so far.
    pub fn len(&self) -> (r: usize)
        requires
            self.wf(),
        ensures
            r == self.received().len(),
    {
        self.filled
    }

    /// The peer has closed its side.
    pub fn closed(&self) -> (r: bool)
        ensures
            r == self.is_closed(),
    {
        self.closed
    }

    /// Takes in the outcome of one read. Bytes are kept after those read
    /// before, and the buffer grows by one step when they fill it; no byte
    /// means the peer closed. A read that would block ends the burst, an
    /// interrupted one is tried again, and any other failure is fatal.
    pub fn on_read(&mut self, outcome: ReadOutcome) -> (r: DrainStep)
        requires
            old(self).wf(),
            old(self).spec_capacity() + GROW <= usize::MAX,
            outcome matches ReadOutcome::Bytes(v) ==> v@.len() <= old(self).spec_capacity()
                - old(self).received().len(),
        ensures
            final(self).wf(),
            match outcome {
                ReadOutcome::Bytes(v) => {
                    &&& final(self).received() == old(self).received() + v@
                    &&& final(self).is_closed() == (old(self).is_closed() || v@.len() == 0)
                    &&& r == if v@.len() == 0 {
                        DrainStep::Done
                    } else {
                        DrainStep::ReadAgain
                    }
                    &&& final(self).spec_capacity() == if final(self).received().len()
                        == old(self).spec_capacity() {
                        old(self).spec_capacity() + GROW
                    } else {
                        old(self).spec_capacity() as int
                    }
                },
                _ => {
                    &&& final(self).received() == old(self).received()
                    &&& final(self).is_closed() == old(self).is_closed()
                    &&& final(self).spec_capacity() == old(self).spec_capacity()
                    &&& r == match outcome {
                        ReadOutcome::WouldBlock => DrainStep::Done,
                        ReadOutcome::Interrupted => DrainStep::ReadAgain,
                        _ => DrainStep::Fatal,
                    }
                },
            },
    {
        match outcome {
            ReadOutcome::Bytes(v) => {
                if v.len() == 0 {
                    self.closed = true;
                    assert(old(self).received() + v@ =~= old(self).received());
                    return DrainStep::Done;
                }
                let start = self.filled;
                let mut j: usize = 0;
                while j < v.len()
                    invariant
                        j <= v@.len(),
                        start == old(self).filled,
                        start + v@.len() <= self.buf@.len(),
                        self.buf@.len() == old(self).buf@.len(),
                        self.buf@.len() + GROW <= usize::MAX,
                        self.filled == old(self).filled,
                        self.closed == old(self).closed,
                        self.buf@.subrange(0, start as int) == old(self).received(),
                        forall|k: int| 0 <= k < j ==> self.buf@[start + k] == v@[k],
                    decreases v@.len() - j,
                {
                    let ghost before = self.buf@;
                    self.buf.set(start + j, v[j]);
                    assert(self.buf@.subrange(0, start as int) =~= before.subrange(
                        0,
                        start as int,
                    ));
                    j = j + 1;
                }
                self.filled = start + v.len();
                assert(self.buf@.subrange(0, self.filled as int) =~= old(self).received() + v@) by {
                    assert forall|k: int| 0 <= k < self.filled implies #[trigger] self.buf@[k] == (
                    old(self).received() + v@)[k] by {
                        if k < start {
                            assert(self.buf@[k] == self.buf@.subrange(0, start as int)[k]);
                        } else {
                            assert(self.buf@[start + (k - start)] == v@[k - start]);
                        }
                    }
                }
                if self.filled == self.buf.len() {
                    let ghost before = self.buf@;
                    let n = self.buf.len() + GROW;
                    self.buf.resize(n, 0);
                    assert(self.buf@.subrange(0, self.filled as int) =~= before.subrange(
                        0,
                        self.filled as int,
                    ));
                    assert((before.len() + GROW) as nat % (GROW as nat) == 0);
                }
                DrainStep::ReadAgain
            },
            ReadOutcome::WouldBlock => DrainStep::Done,
            ReadOutcome::Interrupted => DrainStep::ReadAgain,
            ReadOutcome::Failed => DrainStep::Fatal,
        }
    }

    /// The bytes to write back once the burst is drained: exactly those read,
    /// in order, where some were read and the peer has not closed; else
    /// nothing is written.
    pub fn echo(&self) -> (r: Option<Vec<u8>>)
        requires
            self.wf(),
        ensures
            r is Some <==> (self.received().len() > 0 && !self.is_closed()),
            r matches Some(v) ==> v@ == self.received(),
    {
        if self.filled == 0 || self.closed {
            return None;
        }
        let mut out: Vec<u8> = Vec::with_capacity(self.filled);
        let mut i: usize = 0;
        while i < self.filled
            invariant
                i <= self.filled < self.buf@.len(),
                out@ == self.buf@.subrange(0, i as int),
            decreases self.filled - i,
        {
            out.push(self.buf[i]);
            assert(out@ =~= self.buf@.subrange(0, i + 1));
            i = i + 1;
        }
        Some(out)
    }
}

/// The connection is re-armed for reading after a write-back only where the
/// write took every byte asked of it; a short or failed write is left as it
/// is.
pub fn rearm_after_write(requested: usize, written: Option<usize>) -> (r: bool)
    ensures
        r == (written == Some(requested)),
{
    match written {
        Some(n) => n == requested,
        None => false,
    }
}

/// A buffer always holds more room than the bytes it received: once a burst
/// has read a full step or more, the buffer has grown past its first size.
pub proof fn lemma_capacity_exceeds_received(b: Burst)
    requires
        b.wf(),
    ensures
        b.spec_capacity() > b.received().len(),
        b.received().len() >= GROW ==> b.spec_capacity() > GROW,
{
}

/// Draining keeps every byte in the order it came: where a fresh burst takes
/// in the chunks `chunks`, one read after another, the bytes it holds, and so
/// the bytes it echoes, are those chunks joined in order.
pub proof fn lemma_drain_keeps_order(bursts: Seq<Burst>, chunks: Seq<Seq<u8>>)
    requires
        bursts.len() == chunks.len() + 1,
        bursts[0].received() == Seq::<u8>::empty(),
        forall|i: int|
            0 <= i < chunks.len() ==> #[trigger] bursts[i + 1].received() == bursts[i].received()
                + chunks[i],
    ensures
        bursts.last().received() == chunks.flatten(),
    decreases chunks.len(),
{
    if chunks.len() == 0 {
        assert(chunks.flatten() =~= Seq::<u8>::empty());
    } else {
        let n = chunks.len() - 1;
        let b = bursts.drop_last();
        let c = chunks.drop_last();
        assert forall|i: int| 0 <= i < c.len() implies #[trigger] b[i + 1].received() == b[i].received()
            + c[i] by {
            assert(bursts[i + 1].received() == bursts[i].received() + chunks[i]);
        }
        lemma_drain_keeps_order(b, c);
        c.lemma_flatten_push(chunks[n]);
        assert(c.push(chunks[n]) =~= chunks);
        assert(bursts[n + 1].received() == bursts[n].received() + chunks[n]);
    }
}

} // verus!
