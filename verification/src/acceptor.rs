//! The multi-transport acceptor's accept policy: one decision per poll
//! round over any number of heterogeneous listeners, fair across listeners
//! and fail-fast on a listener's own error.

use vstd::prelude::*;

verus! {

/// What one poll of a single listener reported. The connection itself
/// stays with the caller; the policy needs only the kind of the outcome.
#[derive(Clone, Copy, PartialEq, Eq, Structural, Debug)]
pub enum ListenerPoll {
    /// A connection is ready to be taken.
    Ready,
    /// Nothing yet; the listener is still open.
    Pending,
    /// Graceful end of stream: no more connections forthcoming.
    End,
    /// An unrecoverable accept error: the listener's own invariant broke.
    Failed,
}

/// The acceptor's decision after one poll round.
#[derive(Clone, Copy, PartialEq, Eq, Structural, Debug)]
pub enum AcceptDecision {
    /// Take the ready connection of the listener at this index.
    Accept(usize),
    /// A listener failed while open: surface the error and stop serving.
    Fatal,
    /// Every listener has ended; the acceptor as a whole is exhausted.
    Exhausted,
    /// Nothing ready anywhere: wait to be woken.
    Sleep,
    /// The cancellation event has fired: offer no further connections.
    Stop,
}

/// The first index in `lo..hi` of an open listener reporting `Ready`.
pub open spec fn first_ready_in(
    ex: Seq<bool>,
    polls: Seq<ListenerPoll>,
    lo: int,
    hi: int,
) -> Option<int>
    decreases hi - lo,
{
    if lo >= hi {
        None
    } else if !ex[lo] && polls[lo] is Ready {
        Some(lo)
    } else {
        first_ready_in(ex, polls, lo + 1, hi)
    }
}

/// The first ready open listener scanning cyclically from `start`.
pub open spec fn first_ready_from(ex: Seq<bool>, polls: Seq<ListenerPoll>, start: int) -> Option<
    int,
> {
    match first_ready_in(ex, polls, start, ex.len() as int) {
        Some(i) => Some(i),
        None => first_ready_in(ex, polls, 0, start),
    }
}

/// Some open listener reported an unrecoverable error.
pub open spec fn any_failed(ex: Seq<bool>, polls: Seq<ListenerPoll>) -> bool {
    exists|i: int| 0 <= i < ex.len() && !ex[i] && (#[trigger] polls[i]) is Failed
}

/// Some open listener has a connection ready.
pub open spec fn any_ready(ex: Seq<bool>, polls: Seq<ListenerPoll>) -> bool {
    exists|i: int| 0 <= i < ex.len() && !ex[i] && (#[trigger] polls[i]) is Ready
}

/// Every listener has ended.
pub open spec fn all_exhausted(ex: Seq<bool>) -> bool {
    forall|i: int| 0 <= i < ex.len() ==> ex[i]
}

/// What `first_ready_in` returns: the first ready open index of the range,
/// and `None` exactly when the range holds none.
pub proof fn lemma_first_ready_in(ex: Seq<bool>, polls: Seq<ListenerPoll>, lo: int, hi: int)
    requires
        0 <= lo,
        hi <= ex.len(),
    ensures
        first_ready_in(ex, polls, lo, hi) matches Some(i) ==> lo <= i < hi && !ex[i]
            && polls[i] is Ready && (forall|j: int|
            lo <= j < i ==> !(!ex[j] && (#[trigger] polls[j]) is Ready)),
        first_ready_in(ex, polls, lo, hi) is None ==> forall|j: int|
            lo <= j < hi ==> !(!ex[j] && (#[trigger] polls[j]) is Ready),
    decreases hi - lo,
{
    if lo < hi {
        lemma_first_ready_in(ex, polls, lo + 1, hi);
    }
}

/// What the cyclic scan returns, and that it misses nothing: it yields an
/// open ready listener whenever one exists.
pub proof fn lemma_first_ready_from(ex: Seq<bool>, polls: Seq<ListenerPoll>, start: int)
    requires
        0 <= start <= ex.len(),
    ensures
        first_ready_from(ex, polls, start) matches Some(i) ==> 0 <= i < ex.len() && !ex[i]
            && polls[i] is Ready,
        first_ready_from(ex, polls, start) is None ==> !any_ready(ex, polls),
{
    lemma_first_ready_in(ex, polls, start, ex.len() as int);
    lemma_first_ready_in(ex, polls, 0, start);
    if first_ready_from(ex, polls, start) is None && any_ready(ex, polls) {
        let w = choose|i: int|
            0 <= i < ex.len() && !ex[i] && (#[trigger] polls[i]) is Ready;
        assert(!(w < start) && !(w >= start));
    }
}

/// The acceptor's state across poll rounds: which listeners have ended,
/// and where the next fairness scan starts.
pub struct MultiAcceptor {
    pub exhausted: Vec<bool>,
    pub next: usize,
}

/// The first index of the range `lo..hi` at which an open listener
/// reports `Ready`, executably.
fn scan_range(ex: &Vec<bool>, polls: &Vec<ListenerPoll>, lo: usize, hi: usize) -> (r: Option<
    usize,
>)
    requires
        lo <= hi,
        hi <= ex.len(),
        polls.len() == ex.len(),
    ensures
        r matches Some(i) ==> first_ready_in(ex@, polls@, lo as int, hi as int) == Some(i as int),
        r is None ==> first_ready_in(ex@, polls@, lo as int, hi as int) is None,
    decreases hi - lo,
{
    if lo >= hi {
        None
    } else if !ex[lo] && matches!(polls[lo], ListenerPoll::Ready) {
        Some(lo)
    } else {
        scan_range(ex, polls, lo + 1, hi)
    }
}

impl MultiAcceptor {
    /// Well-formed: at least one listener, and the fairness cursor in range.
    pub open spec fn wf(self) -> bool {
        self.exhausted@.len() > 0 && self.next < self.exhausted@.len()
    }

    /// A fresh acceptor over `n` listeners: all open, scan starting at 0.
    pub fn new(n: usize) -> (r: MultiAcceptor)
        requires
            n > 0,
        ensures
            r.wf(),
            r.exhausted@.len() == n,
            forall|i: int| 0 <= i < n ==> !r.exhausted@[i],
            r.next == 0,
    {
        let mut ex: Vec<bool> = Vec::new();
        let mut i: usize = 0;
        while i < n
            invariant
                i <= n,
                ex@.len() == i,
                forall|j: int| 0 <= j < i ==> !ex@[j],
            decreases n - i,
        {
            ex.push(false);
            i = i + 1;
        }
        MultiAcceptor { exhausted: ex, next: 0 }
    }

    /// One poll round. Every listener's report is considered: a fired
    /// cancellation stops the acceptor cold; otherwise an open listener's
    /// failure is fatal for the whole acceptor; otherwise the first ready
    /// listener from the fairness cursor on is accepted and the cursor
    /// moves past it — so no ready listener is ever passed over in favour
    /// of waiting. Listeners reporting end of stream are marked exhausted,
    /// and the acceptor is exhausted only when all are.
    pub fn step(&mut self, polls: &Vec<ListenerPoll>, cancelled: bool) -> (d: AcceptDecision)
        requires
            old(self).wf(),
            polls@.len() == old(self).exhausted@.len(),
        ensures
            final(self).wf(),
            final(self).exhausted@.len() == old(self).exhausted@.len(),
            cancelled ==> d == AcceptDecision::Stop && *final(self) == *old(self),
            !cancelled ==> forall|i: int|
                0 <= i < polls@.len() ==> (final(self).exhausted@[i] <==> (
                old(self).exhausted@[i] || polls@[i] is End)),
            !cancelled && any_failed(old(self).exhausted@, polls@) ==> d
                == AcceptDecision::Fatal,
            !cancelled && !any_failed(old(self).exhausted@, polls@) ==> {
                &&& (first_ready_from(
                    old(self).exhausted@,
                    polls@,
                    old(self).next as int,
                ) matches Some(i) ==> d == AcceptDecision::Accept(i as usize) && !old(
                    self,
                ).exhausted@[i] && polls@[i] is Ready && final(self).next == (if i + 1
                    == polls@.len() as int {
                    0int
                } else {
                    i + 1
                }))
                &&& (first_ready_from(old(self).exhausted@, polls@, old(self).next as int) is None
                    ==> !any_ready(old(self).exhausted@, polls@) && final(self).next == old(
                    self,
                ).next && (d == AcceptDecision::Exhausted <==> all_exhausted(
                    final(self).exhausted@,
                )) && (d == AcceptDecision::Exhausted || d == AcceptDecision::Sleep))
            },
            !cancelled && !any_failed(old(self).exhausted@, polls@) && any_ready(
                old(self).exhausted@,
                polls@,
            ) ==> d matches AcceptDecision::Accept(i),
    {
        if cancelled {
            return AcceptDecision::Stop;
        }
        let n = self.exhausted.len();
        proof {
            lemma_first_ready_from(self.exhausted@, polls@, self.next as int);
        }
        // Is any open listener broken?
        let mut failed = false;
        let mut i: usize = 0;
        while i < n
            invariant
                i <= n,
                n == self.exhausted@.len(),
                polls@.len() == n,
                failed <==> exists|j: int|
                    0 <= j < i && !self.exhausted@[j] && (#[trigger] polls@[j]) is Failed,
            decreases n - i,
        {
            if !self.exhausted[i] && matches!(polls[i], ListenerPoll::Failed) {
                failed = true;
            }
            i = i + 1;
        }
        // Find the first ready listener, scanning fairly from the cursor.
        let ready = match scan_range(&self.exhausted, polls, self.next, n) {
            Some(j) => Some(j),
            None => scan_range(&self.exhausted, polls, 0, self.next),
        };
        // Listeners that ended are exhausted from now on.
        let ghost ex0 = self.exhausted@;
        let mut k: usize = 0;
        while k < n
            invariant
                k <= n,
                n == self.exhausted@.len(),
                polls@.len() == n,
                self.next == old(self).next,
                self.next < n,
                forall|j: int|
                    0 <= j < k ==> ((#[trigger] self.exhausted@[j]) <==> (ex0[j]
                        || polls@[j] is End)),
                forall|j: int| k <= j < n ==> (#[trigger] self.exhausted@[j]) == ex0[j],
            decreases n - k,
        {
            if matches!(polls[k], ListenerPoll::End) {
                self.exhausted.set(k, true);
            }
            proof {
                assert(self.exhausted@[k as int] <==> (ex0[k as int] || polls@[k as int] is End));
            }
            k = k + 1;
        }
        if failed {
            return AcceptDecision::Fatal;
        }
        match ready {
            Some(j) => {
                self.next = if j + 1 == n {
                    0
                } else {
                    j + 1
                };
                AcceptDecision::Accept(j)
            },
            None => {
                let mut all = true;
                let mut m: usize = 0;
                while m < n
                    invariant
                        m <= n,
                        n == self.exhausted@.len(),
                        all <==> (forall|j: int| 0 <= j < m ==> self.exhausted@[j]),
                    decreases n - m,
                {
                    if !self.exhausted[m] {
                        all = false;
                    }
                    m = m + 1;
                }
                if all {
                    AcceptDecision::Exhausted
                } else {
                    AcceptDecision::Sleep
                }
            },
        }
    }
}

} // verus!
