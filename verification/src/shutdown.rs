//! Shutdown coordination: the single-fire cancellation event all signal
//! sources share, the Running, Draining, Terminated phases, and the
//! filesystem cleanup owed after a drain or a failed startup.

use crate::address::{display_address, AddressModel, SocketAddress};
use vstd::prelude::*;

verus! {

/// A failed bind, tagged with the offending address, so that a partial
/// startup can report exactly which address was unavailable.
pub struct BindError {
    pub address: SocketAddress,
    pub cause: String,
}

impl BindError {
    /// The startup diagnostic: the offending address and the cause.
    pub fn log_line(&self) -> (r: String)
        requires
            self.address.wf(),
        ensures
            r@ == "can't listen "@ + display_address(self.address@) + ": "@ + self.cause@,
    {
        let mut l = String::from_str("can't listen ");
        l.append(self.address.to_display_string().as_str());
        l.append(": ");
        l.append(self.cause.as_str());
        l
    }
}

/// The cancellation event: it transitions from pending to fired exactly
/// once, whichever signal source gets there first; every later fire is
/// observed as a no-op.
pub struct CancellationSignal {
    pub fired: bool,
}

impl CancellationSignal {
    /// A fresh, pending event.
    pub fn new() -> (r: CancellationSignal)
        ensures
            !r.fired,
    {
        CancellationSignal { fired: false }
    }

    /// Fires the event; `won` says whether this call performed the
    /// transition. Once fired, the event stays fired, so of any sequence
    /// of calls exactly the first wins.
    pub fn fire(&mut self) -> (won: bool)
        ensures
            final(self).fired,
            won <==> !old(self).fired,
    {
        let won = !self.fired;
        self.fired = true;
        won
    }
}

/// Whether the event is fired after `k` fire calls on a cell that started
/// in the given state: each call leaves the cell fired.
pub open spec fn fired_after(fired: bool, k: nat) -> bool {
    fired || k > 0
}

/// Whether the `j`-th fire call (counting from zero) on a fresh event wins:
/// a call wins exactly when the event was still pending before it.
pub open spec fn fire_wins_at(j: nat) -> bool {
    !fired_after(false, j)
}

/// Law: the cancellation event fires at most once, from however many
/// sources the calls come — of any sequence of fire calls on a fresh
/// event, exactly the first wins.
pub proof fn lemma_fire_at_most_once(j: nat)
    ensures
        fire_wins_at(j) <==> j == 0,
{
}

/// The phase of the serving process.
#[derive(Clone, Copy, PartialEq, Eq, Structural)]
pub enum Phase {
    /// Listeners are bound and connections are being served.
    Running,
    /// Cancellation has fired: no new connections, in-flight work finishes.
    Draining,
    /// The drain is over; transport cleanup may run.
    Terminated,
}

/// The phase after one termination signal: only Running moves, to
/// Draining; a signal in any later phase changes nothing.
pub open spec fn signal_step(p: Phase) -> Phase {
    if p is Running {
        Phase::Draining
    } else {
        p
    }
}

/// The phase after the server reports its drain complete: only Draining
/// moves, to Terminated.
pub open spec fn drained_step(p: Phase) -> Phase {
    if p is Draining {
        Phase::Terminated
    } else {
        p
    }
}

/// The phase after `k` termination signals.
pub open spec fn phase_after_signals(p: Phase, k: nat) -> Phase
    decreases k,
{
    if k == 0 {
        p
    } else {
        signal_step(phase_after_signals(p, (k - 1) as nat))
    }
}

/// Law: a second and every later termination signal is a no-op — any
/// number of signals leaves the process exactly where the first one did.
pub proof fn lemma_extra_signals_noop(p: Phase, k: nat)
    requires
        k >= 1,
    ensures
        phase_after_signals(p, k) == signal_step(p),
    decreases k,
{
    if k == 1 {
        assert(phase_after_signals(p, 0) == p);
    } else {
        lemma_extra_signals_noop(p, (k - 1) as nat);
        assert(phase_after_signals(p, k) == signal_step(phase_after_signals(p, (k - 1) as nat)));
    }
}

/// The coordinator that walks the process through its phases.
pub struct ShutdownCoordinator {
    pub phase: Phase,
}

impl ShutdownCoordinator {
    /// A coordinator for a process that has just started serving.
    pub fn new() -> (r: ShutdownCoordinator)
        ensures
            r.phase is Running,
    {
        ShutdownCoordinator { phase: Phase::Running }
    }

    /// Observes one termination signal; `transitioned` says whether this
    /// was the first, the one that starts the drain.
    pub fn on_signal(&mut self) -> (transitioned: bool)
        ensures
            final(self).phase == signal_step(old(self).phase),
            transitioned <==> old(self).phase is Running,
    {
        match self.phase {
            Phase::Running => {
                self.phase = Phase::Draining;
                true
            },
            _ => false,
        }
    }

    /// Observes the server's report that in-flight work has drained.
    pub fn on_drained(&mut self)
        ensures
            final(self).phase == drained_step(old(self).phase),
    {
        if matches!(self.phase, Phase::Draining) {
            self.phase = Phase::Terminated;
        }
    }

    /// Cleanup may begin only once the drain is over.
    pub fn cleanup_ready(&self) -> (r: bool)
        ensures
            r <==> self.phase is Terminated,
    {
        matches!(self.phase, Phase::Terminated)
    }
}

/// The filesystem paths that cleanup owes: the path of every
/// filesystem-socket address of the list, in order; network transports
/// need no cleanup.
pub open spec fn cleanup_targets(addrs: Seq<AddressModel>) -> Seq<Seq<char>>
    decreases addrs.len(),
{
    if addrs.len() == 0 {
        Seq::<Seq<char>>::empty()
    } else {
        let rest = cleanup_targets(addrs.drop_last());
        if addrs.last() is Unix {
            rest.push(addrs.last()->path)
        } else {
            rest
        }
    }
}

/// Law: cleanup covers exactly the bound filesystem-socket paths — every
/// such path is a target, and every target is such a path.
pub proof fn lemma_cleanup_targets_exact(addrs: Seq<AddressModel>)
    ensures
        forall|i: int|
            0 <= i < addrs.len() && (#[trigger] addrs[i]) is Unix ==> cleanup_targets(
                addrs,
            ).contains(addrs[i]->path),
        forall|p: Seq<char>|
            cleanup_targets(addrs).contains(p) ==> exists|i: int|
                0 <= i < addrs.len() && (#[trigger] addrs[i]) is Unix && addrs[i]->path == p,
    decreases addrs.len(),
{
    if addrs.len() > 0 {
        let pre = addrs.drop_last();
        lemma_cleanup_targets_exact(pre);
        assert(forall|i: int| 0 <= i < pre.len() ==> pre[i] == addrs[i]);
        let whole = cleanup_targets(addrs);
        let rest = cleanup_targets(pre);
        assert forall|i: int|
            0 <= i < addrs.len() && (#[trigger] addrs[i]) is Unix implies whole.contains(
            addrs[i]->path,
        ) by {
            if i < addrs.len() - 1 {
                assert(rest.contains(addrs[i]->path));
                let w = choose|w: int| 0 <= w < rest.len() && rest[w] == addrs[i]->path;
                assert(whole[w] == addrs[i]->path);
            } else {
                assert(whole.last() == addrs[i]->path);
            }
        }
        assert forall|p: Seq<char>| whole.contains(p) implies exists|i: int|
            0 <= i < addrs.len() && (#[trigger] addrs[i]) is Unix && addrs[i]->path == p by {
            let w = choose|w: int| 0 <= w < whole.len() && whole[w] == p;
            if w < rest.len() {
                assert(rest[w] == p);
                assert(rest.contains(p));
            } else {
                assert(addrs.last() is Unix && addrs.last()->path == p);
                assert(addrs[addrs.len() - 1] is Unix);
            }
        }
    }
}

/// The paths of the filesystem-socket addresses among the first `bound`
/// addresses: what a partial or full startup owes to cleanup. A failed
/// bind calls this with the count of addresses already bound, so no
/// socket file leaks from a partial startup.
pub fn cleanup_paths(addresses: &Vec<SocketAddress>, bound: usize) -> (r: Vec<String>)
    requires
        bound <= addresses.len(),
    ensures
        r@.map_values(|s: String| s@) == cleanup_targets(
            addresses@.map_values(|a: SocketAddress| a@).take(bound as int),
        ),
{
    let ghost models = addresses@.map_values(|a: SocketAddress| a@);
    let mut r: Vec<String> = Vec::new();
    let mut i: usize = 0;
    while i < bound
        invariant
            i <= bound <= addresses.len(),
            models == addresses@.map_values(|a: SocketAddress| a@),
            r@.map_values(|s: String| s@) == cleanup_targets(models.take(i as int)),
        decreases bound - i,
    {
        proof {
            assert(models.take(i as int + 1).drop_last() =~= models.take(i as int));
            assert(models.take(i as int + 1).last() == models[i as int]);
            assert(models[i as int] == addresses@[i as int]@);
        }
        match &addresses[i] {
            SocketAddress::UnixDomainSocket(p) => {
                let path = p.clone();
                r.push(path);
                proof {
                    assert(r@.map_values(|s: String| s@) =~= cleanup_targets(
                        models.take(i as int),
                    ).push(models[i as int]->path));
                }
            },
            _ => {},
        }
        i = i + 1;
    }
    proof {
        assert(models.take(bound as int) =~= models.take(i as int));
    }
    r
}

/// At least one listen address must be supplied: an empty list is a fatal
/// startup condition.
pub fn addresses_present(addresses: &Vec<SocketAddress>) -> (ok: bool)
    ensures
        ok <==> addresses@.len() > 0,
{
    addresses.len() > 0
}

} // verus!
