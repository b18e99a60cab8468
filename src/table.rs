//! Connection tokens and the table of live connections of the poll loop.

use vstd::prelude::*;

verus! {

/// The token of the listening socket, never given to a connection.
pub const SERVER_TOKEN: usize = 0;

/// An identifier that ties a readiness event to what it concerns.
#[derive(Debug, Clone, Copy, PartialEq, Eq, Structural, Hash)]
pub struct Token(pub usize);

/// Hands out the token `current` holds and moves it on by one.
pub fn next(current: &mut Token) -> (r: Token)
    requires
        old(current).0 < usize::MAX,
    ensures
        r == *old(current),
        final(current).0 == old(current).0 + 1,
{
    let r = Token(current.0);
    current.0 = current.0 + 1;
    r
}

/// What one accept on the listening socket gave.
#[derive(Debug, Clone, Copy, PartialEq, Eq, Structural)]
pub enum AcceptOutcome {
    Accepted,
    WouldBlock,
    Failed,
}

/// What to do after an accept.
#[derive(Debug, Clone, Copy, PartialEq, Eq, Structural)]
pub enum AcceptStep {
    /// Register the new connection for reading under this token, then accept
    /// again.
    Register(Token),
    /// The backlog is drained for this wake-up.
    Stop,
    /// The listening socket failed: end the loop with that error.
    Fatal,
}

/// Whom a ready event concerns.
#[derive(Debug, Clone, Copy, PartialEq, Eq, Structural)]
pub enum Target {
    /// The listening socket: accept until it would block.
    Listener,
    /// A live connection: serve its burst.
    Connection,
    /// No live connection holds the token: a broken invariant of the caller.
    Unknown,
}

/// The tokens of the live connections, and the next token to hand out.
/// Tokens are handed out in increasing order from just above the listener's,
/// and never again.
pub struct ConnectionTable {
    live: Vec<usize>,
    next: Token,
}

impl ConnectionTable {
    /// The tokens of the live connections.
    pub closed spec fn live(&self) -> Set<usize> {
        self.live@.to_set()
    }

    /// The token the next accepted connection gets.
    pub closed spec fn spec_next(&self) -> usize {
        self.next.0
    }

    /// Every live token lies between the listener's and the next one, and
    /// each is held once.
    pub closed spec fn wf(&self) -> bool {
        &&& self.live@.no_duplicates()
        &&& SERVER_TOKEN < self.next.0
        &&& forall|i: int|
            0 <= i < self.live@.len() ==> SERVER_TOKEN < #[trigger] self.live@[i] < self.next.0
    }

    /// A table with no connection, whose first token is just above the
    /// listener's.
    pub fn new() -> (r: ConnectionTable)
        ensures
            r.wf(),
            r.live() == Set::<usize>::empty(),
            r.spec_next() == SERVER_TOKEN + 1,
    {
        let r = ConnectionTable { live: Vec::new(), next: Token(SERVER_TOKEN + 1) };
        assert(r.live() =~= Set::<usize>::empty());
        r
    }

    /// The token the next accepted connection gets.
    pub fn next_token(&self) -> (r: Token)
        ensures
            r.0 == self.spec_next(),
    {
        self.next
    }

    /// The number of live connections.
    pub fn len(&self) -> (r: usize)
        requires
            self.wf(),
        ensures
            r == self.live().len(),
    {
        proof {
            self.live@.unique_seq_to_set();
        }
        self.live.len()
    }

    /// A live connection holds `t`.
    pub fn contains(&self, t: Token) -> (r: bool)
        ensures
            r == self.live().contains(t.0),
    {
        let mut i: usize = 0;
        while i < self.live.len()
            invariant
                i <= self.live@.len(),
                forall|k: int| 0 <= k < i ==> self.live@[k] != t.0,
            decreases self.live@.len() - i,
        {
            if self.live[i] == t.0 {
                assert(self.live@.to_set().contains(self.live@[i as int]));
                return true;
            }
            i = i + 1;
        }
        proof {
            if self.live@.to_set().contains(t.0) {
                let k = choose|k: int| 0 <= k < self.live@.len() && self.live@[k] == t.0;
                assert(self.live@[k] != t.0);
            }
        }
        false
    }

    /// Whom an event under `t` concerns.
    pub fn target(&self, t: Token) -> (r: Target)
        ensures
            r == if t.0 == SERVER_TOKEN {
                Target::Listener
            } else if self.live().contains(t.0) {
                Target::Connection
            } else {
                Target::Unknown
            },
    {
        if t.0 == SERVER_TOKEN {
            Target::Listener
        } else if self.contains(t) {
            Target::Connection
        } else {
            Target::Unknown
        }
    }

    /// Takes in the outcome of one accept. A new connection gets the next
    /// token and joins the table; an accept that would block ends the accept
    /// loop of this wake-up; any other failure is fatal.
    pub fn on_accept(&mut self, outcome: AcceptOutcome) -> (r: AcceptStep)
        requires
            old(self).wf(),
            old(self).spec_next() < usize::MAX,
        ensures
            final(self).wf(),
            match outcome {
                AcceptOutcome::Accepted => {
                    &&& r == AcceptStep::Register(Token(old(self).spec_next()))
                    &&& !old(self).live().contains(old(self).spec_next())
                    &&& final(self).live() == old(self).live().insert(old(self).spec_next())
                    &&& final(self).spec_next() == old(self).spec_next() + 1
                },
                _ => {
                    &&& r == if outcome == AcceptOutcome::WouldBlock {
                        AcceptStep::Stop
                    } else {
                        AcceptStep::Fatal
                    }
                    &&& final(self).live() == old(self).live()
                    &&& final(self).spec_next() == old(self).spec_next()
                },
            },
    {
        match outcome {
            AcceptOutcome::Accepted => {
                proof {
                    lemma_next_token_fresh(*self);
                }
                let t = next(&mut self.next);
                self.live.push(t.0);
                proof {
                    old(self).live@.lemma_push_to_set_commute(t.0);
                    assert forall|i: int, j: int|
                        0 <= i < self.live@.len() && 0 <= j < self.live@.len() && i != j implies
                        self.live@[i] != self.live@[j] by {
                        if i < old(self).live@.len() && j < old(self).live@.len() {
                            assert(old(self).live@[i] != old(self).live@[j]);
                        }
                    }
                }
                AcceptStep::Register(t)
            },
            AcceptOutcome::WouldBlock => AcceptStep::Stop,
            AcceptOutcome::Failed => AcceptStep::Fatal,
        }
    }

    /// Drops the connection under `t` from the table once it is finished.
    pub fn remove(&mut self, t: Token)
        requires
            old(self).wf(),
        ensures
            final(self).wf(),
            final(self).live() == old(self).live().remove(t.0),
            final(self).spec_next() == old(self).spec_next(),
    {
        let mut i: usize = 0;
        while i < self.live.len()
            invariant
                i <= self.live@.len(),
                self.live@ == old(self).live@,
                self.next == old(self).next,
                old(self).wf(),
                forall|k: int| 0 <= k < i ==> self.live@[k] != t.0,
            decreases self.live@.len() - i,
        {
            if self.live[i] == t.0 {
                let ghost before = self.live@;
                self.live.remove(i);
                proof {
                    assert(self.live@ == before.remove(i as int));
                    assert(self.live@.to_set() =~= before.to_set().remove(t.0)) by {
                        assert forall|x: usize| #[trigger] self.live@.to_set().contains(x) <==> before.to_set().remove(t.0).contains(x) by {
                            if self.live@.to_set().contains(x) {
                                let k = choose|k: int| 0 <= k < self.live@.len() && self.live@[k] == x;
                                if k < i {
                                    assert(before[k] == x);
                                } else {
                                    assert(before[k + 1] == x);
                                }
                            }
                            if before.to_set().remove(t.0).contains(x) {
                                let k = choose|k: int| 0 <= k < before.len() && before[k] == x;
                                if k < i {
                                    assert(self.live@[k] == x);
                                } else {
                                    assert(k != i);
                                    assert(self.live@[k - 1] == x);
                                }
                            }
                        }
                    }
                    assert forall|a: int, b: int|
                        0 <= a < self.live@.len() && 0 <= b < self.live@.len() && a != b implies
                        self.live@[a] != self.live@[b] by {
                        let a2 = if a < i { a } else { a + 1 };
                        let b2 = if b < i { b } else { b + 1 };
                        assert(self.live@[a] == before[a2]);
                        assert(self.live@[b] == before[b2]);
                    }
                    assert forall|k: int| 0 <= k < self.live@.len() implies SERVER_TOKEN < #[trigger] self.live@[k] < self.next.0 by {
                        let k2 = if k < i { k } else { k + 1 };
                        assert(self.live@[k] == before[k2]);
                    }
                }
                return;
            }
            i = i + 1;
        }
        proof {
            assert(old(self).live@.to_set().remove(t.0) =~= old(self).live@.to_set()) by {
                if old(self).live@.to_set().contains(t.0) {
                    let k = choose|k: int| 0 <= k < self.live@.len() && self.live@[k] == t.0;
                    assert(self.live@[k] != t.0);
                }
            }
        }
    }
}

/// The token the table hands out next is held by no live connection and is
/// not the listener's; so each accepted connection gets a token that no live
/// connection shares.
pub proof fn lemma_next_token_fresh(t: ConnectionTable)
    requires
        t.wf(),
    ensures
        !t.live().contains(t.spec_next()),
        t.spec_next() != SERVER_TOKEN,
        !t.live().contains(SERVER_TOKEN),
{
    if t.live().contains(t.spec_next()) {
        let k = choose|k: int| 0 <= k < t.live@.len() && t.live@[k] == t.spec_next();
        assert(t.live@[k] < t.next.0);
    }
    if t.live().contains(SERVER_TOKEN) {
        let k = choose|k: int| 0 <= k < t.live@.len() && t.live@[k] == SERVER_TOKEN;
        assert(SERVER_TOKEN < t.live@[k]);
    }
}

/// Over any run of accepts, with connections removed in between or not, the
/// tokens handed out are pairwise distinct and none is the listener's. Here
/// `tables[i]` is the table when the `i`-th token was handed out, and each
/// later table's next token lies past the earlier one's, as `on_accept` and
/// `remove` ensure.
pub proof fn lemma_accepted_tokens_distinct(tables: Seq<ConnectionTable>, tokens: Seq<usize>)
    requires
        tables.len() == tokens.len() + 1,
        forall|i: int| 0 <= i < tables.len() ==> (#[trigger] tables[i]).wf(),
        forall|i: int| 0 <= i < tokens.len() ==> #[trigger] tokens[i] == tables[i].spec_next(),
        forall|i: int|
            0 <= i < tokens.len() ==> #[trigger] tables[i + 1].spec_next() > tables[i].spec_next(),
    ensures
        forall|i: int, j: int| 0 <= i < j < tokens.len() ==> tokens[i] < tokens[j],
        forall|i: int, j: int| 0 <= i < tokens.len() && 0 <= j < tokens.len() && i != j ==> tokens[i] != tokens[j],
        forall|i: int| 0 <= i < tokens.len() ==> #[trigger] tokens[i] != SERVER_TOKEN,
{
    assert forall|i: int, j: int| 0 <= i < j < tokens.len() implies tokens[i] < tokens[j] by {
        lemma_next_grows(tables, tokens.len() as int, i, j);
    }
    assert forall|i: int| 0 <= i < tokens.len() implies #[trigger] tokens[i] != SERVER_TOKEN by {
        assert(tables[i].wf());
    }
}

proof fn lemma_next_grows(tables: Seq<ConnectionTable>, n: int, i: int, j: int)
    requires
        tables.len() == n + 1,
        forall|k: int|
            0 <= k < n ==> #[trigger] tables[k + 1].spec_next() > tables[k].spec_next(),
        0 <= i < j <= n,
    ensures
        tables[i].spec_next() < tables[j].spec_next(),
    decreases j - i,
{
    if j > i + 1 {
        lemma_next_grows(tables, n, i, j - 1);
    }
    assert(tables[(j - 1) + 1].spec_next() > tables[j - 1].spec_next());
}

} // verus!
