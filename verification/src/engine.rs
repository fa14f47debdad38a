//! The concurrent scanning engine's verified core: the worker state
//! machine over its stripe, the shared scan state all workers feed, and
//! the coordinator's aggregation into a report.
//!
//! The pieces are plain decision and bookkeeping steps: the surrounding
//! program performs each connect attempt and hands the outcome back, so
//! every run of the real scan is a sequence of these verified steps.
//! `run_worker` and `run_scan` drive the same steps against a fixed
//! reachability fixture and prove what any such run adds up to.

use vstd::prelude::*;
use crate::partition::{
    all_opens,
    counts_from,
    lemma_all_opens_contains,
    lemma_counts_from_nonneg,
    lemma_counts_total,
    lemma_opens_total,
    lemma_stripe_bounds,
    lemma_stripe_count_bounds,
    opens_from,
    stripe_count,
    stripe_opens,
};
use crate::sorting::{sort_ports, sorted};

verus! {

/// What one bounded-time connect attempt reported.  A refused
/// connection, a timeout and an unreachable network are deliberately one
/// outcome.
#[derive(Clone, Copy, Debug, PartialEq, Eq, Structural)]
pub enum ProbeOutcome {
    Open,
    ClosedOrUnreachable,
}

/// Why a scan could not start.  Probe failures are outcomes, never
/// errors, so nothing here can arise once scanning has begun.
#[derive(Clone, Copy, Debug, PartialEq, Eq, Structural)]
pub enum ScanError {
    /// A port or range did not validate.
    InvalidPortSpec,
    /// Name resolution produced no usable address.
    UnresolvableTarget,
    /// Zero worker threads were requested.
    InvalidConfiguration,
}

/// What a worker decides to do at the top of a loop iteration.
#[derive(Clone, Copy, Debug, PartialEq, Eq, Structural)]
pub enum WorkerStep {
    /// Probe the port at this Port Set index.
    Probe(usize),
    /// The cancellation flag was observed: stop at once.
    Cancelled,
    /// The stripe is exhausted: all assigned work is done.
    Exhausted,
}

/// A worker's position on its stripe of the Port Set.
#[derive(Clone, Copy, Debug, PartialEq, Eq, Structural)]
pub struct Worker {
    /// The next Port Set index this worker visits.
    pub index: usize,
    /// Distance between consecutive visited indices: the worker count.
    pub stride: usize,
}

impl Worker {
    /// A stride of zero would visit one index forever.
    pub open spec fn wf(self) -> bool {
        self.stride >= 1
    }

    /// Decides one iteration: the cancellation flag is checked first,
    /// so cancellation is observed before any further probe; then an
    /// exhausted stripe ends the worker; otherwise the current index is
    /// probed.
    pub fn next_step(&self, cancelled: bool, num_ports: usize) -> (r: WorkerStep)
        ensures
            cancelled ==> r == WorkerStep::Cancelled,
            !cancelled && self.index >= num_ports ==> r == WorkerStep::Exhausted,
            !cancelled && self.index < num_ports ==> r == WorkerStep::Probe(self.index),
    {
        if cancelled {
            WorkerStep::Cancelled
        } else if self.index >= num_ports {
            WorkerStep::Exhausted
        } else {
            WorkerStep::Probe(self.index)
        }
    }

    /// Steps to the stripe's next index after a probe.
    pub fn advance(&mut self)
        requires
            old(self).index + old(self).stride <= usize::MAX,
        ensures
            final(self).index == old(self).index + old(self).stride,
            final(self).stride == old(self).stride,
    {
        self.index = self.index + self.stride;
    }
}

/// The state all workers share: the three progress counters, the
/// published open ports, and the cancellation flag.  The surrounding
/// program guards one value of this type for the whole pool.
pub struct ScanState {
    /// Probes completed so far.
    pub scanned: usize,
    /// Probes that found the port open.
    pub open_count: usize,
    /// Probes that found the port closed or unreachable.
    pub closed_count: usize,
    /// Every open port published so far, in discovery order.
    pub open_ports: Vec<u32>,
    /// The cooperative cancellation flag.
    pub cancelled: bool,
}

impl ScanState {
    /// Counter consistency: every completed probe was counted exactly
    /// once as open or as closed, and every open probe published its
    /// port.
    pub open spec fn wf(self) -> bool {
        self.open_count + self.closed_count == self.scanned && self.open_ports@.len()
            == self.open_count
    }

    /// The state before any probe.
    pub fn new() -> (r: ScanState)
        ensures
            r.wf(),
            r.scanned == 0,
            r.open_count == 0,
            r.closed_count == 0,
            r.open_ports@ == Seq::<u32>::empty(),
            !r.cancelled,
    {
        ScanState {
            scanned: 0,
            open_count: 0,
            closed_count: 0,
            open_ports: Vec::new(),
            cancelled: false,
        }
    }

    /// Records one probe outcome: an open port is published and counted
    /// open, any other outcome is counted closed, and the scanned
    /// counter always moves by one.
    pub fn record(&mut self, port: u32, outcome: ProbeOutcome)
        requires
            old(self).wf(),
            old(self).scanned < usize::MAX,
        ensures
            final(self).wf(),
            final(self).scanned == old(self).scanned + 1,
            final(self).cancelled == old(self).cancelled,
            outcome is Open ==> final(self).open_ports@ == old(self).open_ports@.push(port)
                && final(self).open_count == old(self).open_count + 1 && final(self).closed_count
                == old(self).closed_count,
            outcome is ClosedOrUnreachable ==> final(self).open_ports@ == old(self).open_ports@
                && final(self).open_count == old(self).open_count && final(self).closed_count
                == old(self).closed_count + 1,
    {
        match outcome {
            ProbeOutcome::Open => {
                self.open_ports.push(port);
                self.open_count = self.open_count + 1;
            },
            ProbeOutcome::ClosedOrUnreachable => {
                self.closed_count = self.closed_count + 1;
            },
        }
        self.scanned = self.scanned + 1;
    }

    /// Raises the cancellation flag and changes nothing else.  A second
    /// call finds the flag already set and leaves the state as it is:
    /// the transition is idempotent.
    pub fn cancel(&mut self)
        ensures
            *final(self) == (ScanState { cancelled: true, ..*old(self) }),
    {
        self.cancelled = true;
    }

    /// Reads the cancellation flag, as every worker does at the top of
    /// each iteration.
    pub fn is_cancelled(&self) -> (r: bool)
        ensures
            r == self.cancelled,
    {
        self.cancelled
    }

    /// A progress snapshot: probes completed, ports found open, ports
    /// found closed or unreachable.
    pub fn snapshot(&self) -> (r: (usize, usize, usize))
        ensures
            r.0 == self.scanned,
            r.1 == self.open_count,
            r.2 == self.closed_count,
    {
        (self.scanned, self.open_count, self.closed_count)
    }
}

/// A scan's report: whatever had accumulated when the scan finished or
/// was cancelled, with the open ports sorted ascending.
pub struct ScanOutcome {
    /// The open ports, sorted ascending.
    pub open_ports: Vec<u32>,
    /// Probes completed.
    pub scanned: usize,
    /// Ports found open.
    pub open: usize,
    /// Ports found closed or unreachable.
    pub closed: usize,
}

/// Packages the shared state into a report, sorting the open ports.
/// Works on any consistent state, so the complete report and the partial
/// one drawn at cancellation come through the same door.
pub fn finalize(state: &ScanState) -> (r: ScanOutcome)
    requires
        state.wf(),
    ensures
        sorted(r.open_ports@),
        r.open_ports@.to_multiset() == state.open_ports@.to_multiset(),
        r.scanned == state.scanned,
        r.open == state.open_count,
        r.closed == state.closed_count,
        r.open + r.closed == r.scanned,
        r.open_ports@.len() == r.open,
{
    ScanOutcome {
        open_ports: sort_ports(&state.open_ports),
        scanned: state.scanned,
        open: state.open_count,
        closed: state.closed_count,
    }
}

/// Lays out one worker per index with the pool size as the common
/// stride, or refuses a pool of zero workers.
pub fn make_workers(worker_count: usize) -> (r: Result<Vec<Worker>, ScanError>)
    ensures
        (worker_count == 0) <==> (r is Err),
        r is Err ==> r->Err_0 == ScanError::InvalidConfiguration,
        r is Ok ==> r->Ok_0@.len() == worker_count && forall|w: int|
            0 <= w < worker_count ==> (#[trigger] r->Ok_0@[w]) == (Worker {
                index: w as usize,
                stride: worker_count,
            }),
{
    if worker_count == 0 {
        return Err(ScanError::InvalidConfiguration);
    }
    let mut ws: Vec<Worker> = Vec::new();
    let mut w: usize = 0;
    while w < worker_count
        invariant
            0 <= w <= worker_count,
            ws@.len() == w,
            forall|k: int|
                0 <= k < w ==> (#[trigger] ws@[k]) == (Worker {
                    index: k as usize,
                    stride: worker_count,
                }),
        decreases worker_count - w,
    {
        ws.push(Worker { index: w, stride: worker_count });
        w = w + 1;
    }
    Ok(ws)
}

/// Drives one worker to exhaustion against a fixed reachability fixture:
/// each iteration takes the worker's decision, answers the probe from
/// `reachable`, records the outcome and advances, exactly as the real
/// loop does with live probes.  The worker visits its stripe and nothing
/// else: the state gains precisely the stripe's opens and counts.
pub fn run_worker(
    worker: &mut Worker,
    ports: &Vec<u32>,
    reachable: &Vec<bool>,
    state: &mut ScanState,
)
    requires
        old(worker).wf(),
        reachable@.len() == ports@.len(),
        old(state).wf(),
        !old(state).cancelled,
        old(state).scanned + stripe_count(
            old(worker).index as int,
            old(worker).stride as int,
            ports@.len() as int,
        ) <= usize::MAX,
        ports@.len() + old(worker).stride <= usize::MAX,
    ensures
        final(state).wf(),
        !final(state).cancelled,
        final(worker).stride == old(worker).stride,
        final(worker).index >= ports@.len(),
        final(state).open_ports@ == old(state).open_ports@ + stripe_opens(
            old(worker).index as int,
            old(worker).stride as int,
            ports@,
            reachable@,
        ),
        final(state).scanned == old(state).scanned + stripe_count(
            old(worker).index as int,
            old(worker).stride as int,
            ports@.len() as int,
        ),
        final(state).open_count == old(state).open_count + stripe_opens(
            old(worker).index as int,
            old(worker).stride as int,
            ports@,
            reachable@,
        ).len(),
        final(state).closed_count == old(state).closed_count + stripe_count(
            old(worker).index as int,
            old(worker).stride as int,
            ports@.len() as int,
        ) - stripe_opens(
            old(worker).index as int,
            old(worker).stride as int,
            ports@,
            reachable@,
        ).len(),
{
    let n = ports.len();
    let ghost start0 = old(worker).index as int;
    let ghost st = old(worker).stride as int;
    let ghost base = *old(state);
    proof {
        lemma_stripe_count_bounds(start0, st, n as int);
        lemma_stripe_bounds(start0, st, ports@, reachable@);
    }
    while worker.index < n
        invariant
            worker.wf(),
            worker.stride == st,
            n == ports@.len(),
            reachable@.len() == ports@.len(),
            n + st <= usize::MAX,
            state.wf(),
            !state.cancelled,
            state.open_ports@ + stripe_opens(worker.index as int, st, ports@, reachable@)
                == base.open_ports@ + stripe_opens(start0, st, ports@, reachable@),
            state.scanned + stripe_count(worker.index as int, st, n as int) == base.scanned
                + stripe_count(start0, st, n as int),
            state.open_count + stripe_opens(worker.index as int, st, ports@, reachable@).len()
                == base.open_count + stripe_opens(start0, st, ports@, reachable@).len(),
            state.closed_count + stripe_count(worker.index as int, st, n as int) - stripe_opens(
                worker.index as int,
                st,
                ports@,
                reachable@,
            ).len() == base.closed_count + stripe_count(start0, st, n as int) - stripe_opens(
                start0,
                st,
                ports@,
                reachable@,
            ).len(),
            state.scanned + stripe_count(worker.index as int, st, n as int) <= usize::MAX,
        decreases (if worker.index <= n {
            n - worker.index
        } else {
            0int
        }),
    {
        let ghost i = worker.index as int;
        proof {
            lemma_stripe_count_bounds(i + st, st, n as int);
            lemma_stripe_bounds(i + st, st, ports@, reachable@);
        }
        let cancelled = state.is_cancelled();
        let step = worker.next_step(cancelled, n);
        match step {
            WorkerStep::Probe(idx) => {
                let port = ports[idx];
                let outcome = if reachable[idx] {
                    ProbeOutcome::Open
                } else {
                    ProbeOutcome::ClosedOrUnreachable
                };
                let ghost pre_open = state.open_ports@;
                state.record(port, outcome);
                worker.advance();
                proof {
                    let opens_i = stripe_opens(i, st, ports@, reachable@);
                    let opens_next = stripe_opens(i + st, st, ports@, reachable@);
                    if reachable@[i] {
                        assert(opens_i =~= seq![ports@[i]] + opens_next);
                        assert(state.open_ports@ == pre_open.push(port));
                        assert(pre_open.push(port) =~= pre_open + seq![port]);
                        assert((base.open_ports@ + stripe_opens(start0, st, ports@, reachable@))
                            =~= (pre_open + seq![port]) + opens_next) by {
                            assert(pre_open + opens_i =~= (pre_open + seq![port]) + opens_next);
                        }
                    } else {
                        assert(opens_i =~= opens_next);
                    }
                }
            },
            _ => {
                proof {
                    assert(false);
                }
            },
        }
    }
    proof {
        assert(stripe_opens(worker.index as int, st, ports@, reachable@) =~= Seq::empty());
        assert(state.open_ports@ + Seq::<u32>::empty() =~= state.open_ports@);
        assert(base.open_ports@ + stripe_opens(start0, st, ports@, reachable@) =~= state.open_ports@);
        assert(stripe_count(worker.index as int, st, n as int) == 0);
    }
}

/// `x`, but never more than `cap`.
pub open spec fn capped(x: int, cap: int) -> int {
    if x <= cap {
        x
    } else {
        cap
    }
}

/// Drives one worker as `run_worker` does, under a cancellation signal
/// that arrives as soon as `cancel_after` probes have completed.  The
/// worker checks the flag before every probe, so it performs no probe
/// once the signal is up, and the scanned counter never passes
/// `cancel_after`; every port it publishes is a truly open one.
pub fn run_worker_cancellable(
    worker: &mut Worker,
    ports: &Vec<u32>,
    reachable: &Vec<bool>,
    state: &mut ScanState,
    cancel_after: usize,
)
    requires
        old(worker).wf(),
        reachable@.len() == ports@.len(),
        old(state).wf(),
        old(state).scanned <= cancel_after,
        old(state).cancelled ==> old(state).scanned == cancel_after,
        ports@.len() + old(worker).stride <= usize::MAX,
    ensures
        final(state).wf(),
        final(worker).stride == old(worker).stride,
        final(state).scanned == capped(
            old(state).scanned + stripe_count(
                old(worker).index as int,
                old(worker).stride as int,
                ports@.len() as int,
            ),
            cancel_after as int,
        ),
        final(state).scanned <= cancel_after,
        final(state).cancelled == (old(state).cancelled || old(state).scanned + stripe_count(
            old(worker).index as int,
            old(worker).stride as int,
            ports@.len() as int,
        ) > cancel_after),
        forall|q: u32|
            #[trigger] final(state).open_ports@.contains(q) ==> (old(
                state,
            ).open_ports@.contains(q) || exists|i: int|
                0 <= i < ports@.len() && reachable@[i] && #[trigger] ports@[i] == q),
        old(state).cancelled ==> *final(state) == *old(state),
        (!old(state).cancelled && old(state).scanned + stripe_count(
            old(worker).index as int,
            old(worker).stride as int,
            ports@.len() as int,
        ) <= cancel_after) ==> (!final(state).cancelled && final(state).open_ports@ == old(
            state,
        ).open_ports@ + stripe_opens(
            old(worker).index as int,
            old(worker).stride as int,
            ports@,
            reachable@,
        ) && final(state).open_count == old(state).open_count + stripe_opens(
            old(worker).index as int,
            old(worker).stride as int,
            ports@,
            reachable@,
        ).len() && final(state).closed_count == old(state).closed_count + stripe_count(
            old(worker).index as int,
            old(worker).stride as int,
            ports@.len() as int,
        ) - stripe_opens(
            old(worker).index as int,
            old(worker).stride as int,
            ports@,
            reachable@,
        ).len()),
{
    let n = ports.len();
    let ghost start0 = old(worker).index as int;
    let ghost st = old(worker).stride as int;
    let ghost base = *old(state);
    let ghost fits = !base.cancelled && base.scanned + stripe_count(start0, st, n as int)
        <= cancel_after;
    proof {
        lemma_stripe_count_bounds(start0, st, n as int);
    }
    while worker.index < n
        invariant
            worker.wf(),
            worker.stride == st,
            n == ports@.len(),
            reachable@.len() == ports@.len(),
            n + st <= usize::MAX,
            state.wf(),
            state.scanned <= cancel_after,
            state.cancelled ==> state.scanned == cancel_after,
            capped(
                state.scanned + stripe_count(worker.index as int, st, n as int),
                cancel_after as int,
            ) == capped(
                base.scanned + stripe_count(start0, st, n as int),
                cancel_after as int,
            ),
            (state.cancelled || state.scanned + stripe_count(worker.index as int, st, n as int)
                > cancel_after) == (base.cancelled || base.scanned + stripe_count(
                start0,
                st,
                n as int,
            ) > cancel_after),
            forall|q: u32|
                #[trigger] state.open_ports@.contains(q) ==> (base.open_ports@.contains(q)
                    || exists|i: int|
                    0 <= i < ports@.len() && reachable@[i] && #[trigger] ports@[i] == q),
            fits == (!base.cancelled && base.scanned + stripe_count(start0, st, n as int)
                <= cancel_after),
            base.cancelled ==> *state == base,
            fits ==> !state.cancelled,
            fits ==> state.open_ports@ + stripe_opens(worker.index as int, st, ports@, reachable@)
                == base.open_ports@ + stripe_opens(start0, st, ports@, reachable@),
            fits ==> state.open_count + stripe_opens(
                worker.index as int,
                st,
                ports@,
                reachable@,
            ).len() == base.open_count + stripe_opens(start0, st, ports@, reachable@).len(),
            fits ==> state.closed_count + stripe_count(worker.index as int, st, n as int)
                - stripe_opens(worker.index as int, st, ports@, reachable@).len()
                == base.closed_count + stripe_count(start0, st, n as int) - stripe_opens(
                start0,
                st,
                ports@,
                reachable@,
            ).len(),
        ensures
            worker.index >= n || state.cancelled,
            worker.stride == st,
            state.wf(),
            state.scanned <= cancel_after,
            state.cancelled ==> state.scanned == cancel_after,
            capped(
                state.scanned + stripe_count(worker.index as int, st, n as int),
                cancel_after as int,
            ) == capped(
                base.scanned + stripe_count(start0, st, n as int),
                cancel_after as int,
            ),
            (state.cancelled || state.scanned + stripe_count(worker.index as int, st, n as int)
                > cancel_after) == (base.cancelled || base.scanned + stripe_count(
                start0,
                st,
                n as int,
            ) > cancel_after),
            forall|q: u32|
                #[trigger] state.open_ports@.contains(q) ==> (base.open_ports@.contains(q)
                    || exists|i: int|
                    0 <= i < ports@.len() && reachable@[i] && #[trigger] ports@[i] == q),
            fits == (!base.cancelled && base.scanned + stripe_count(start0, st, n as int)
                <= cancel_after),
            base.cancelled ==> *state == base,
            fits ==> !state.cancelled,
            fits ==> state.open_ports@ + stripe_opens(worker.index as int, st, ports@, reachable@)
                == base.open_ports@ + stripe_opens(start0, st, ports@, reachable@),
            fits ==> state.open_count + stripe_opens(
                worker.index as int,
                st,
                ports@,
                reachable@,
            ).len() == base.open_count + stripe_opens(start0, st, ports@, reachable@).len(),
            fits ==> state.closed_count + stripe_count(worker.index as int, st, n as int)
                - stripe_opens(worker.index as int, st, ports@, reachable@).len()
                == base.closed_count + stripe_count(start0, st, n as int) - stripe_opens(
                start0,
                st,
                ports@,
                reachable@,
            ).len(),
        decreases (if worker.index <= n {
            n - worker.index
        } else {
            0int
        }),
    {
        let ghost i = worker.index as int;
        let ghost s0 = *state;
        proof {
            lemma_stripe_count_bounds(i, st, n as int);
            lemma_stripe_count_bounds(i + st, st, n as int);
        }
        if state.scanned >= cancel_after {
            if !state.is_cancelled() {
                state.cancel();
            }
        }
        let cancelled = state.is_cancelled();
        let step = worker.next_step(cancelled, n);
        match step {
            WorkerStep::Probe(idx) => {
                let port = ports[idx];
                let outcome = if reachable[idx] {
                    ProbeOutcome::Open
                } else {
                    ProbeOutcome::ClosedOrUnreachable
                };
                let ghost pre_open = state.open_ports@;
                state.record(port, outcome);
                worker.advance();
                proof {
                    if reachable@[i] {
                        assert forall|q: u32| #[trigger] state.open_ports@.contains(q) implies (
                        pre_open.contains(q) || exists|k: int|
                            0 <= k < ports@.len() && reachable@[k] && #[trigger] ports@[k]
                                == q) by {
                            crate::portset::lemma_push_contains(pre_open, port, q);
                            if q == port {
                                assert(reachable@[i] && ports@[i] == q);
                            }
                        }
                    }
                    if fits {
                        let opens_i = stripe_opens(i, st, ports@, reachable@);
                        let opens_next = stripe_opens(i + st, st, ports@, reachable@);
                        if reachable@[i] {
                            assert(opens_i =~= seq![ports@[i]] + opens_next);
                            assert(state.open_ports@ == pre_open.push(port));
                            assert(pre_open.push(port) =~= pre_open + seq![port]);
                            assert((base.open_ports@ + stripe_opens(
                                start0,
                                st,
                                ports@,
                                reachable@,
                            )) =~= (pre_open + seq![port]) + opens_next) by {
                                assert(pre_open + opens_i =~= (pre_open + seq![port])
                                    + opens_next);
                            }
                        } else {
                            assert(opens_i =~= opens_next);
                        }
                    }
                }
            },
            WorkerStep::Cancelled => {
                proof {
                    if fits {
                        assert(stripe_count(i + st, st, n as int) >= 0);
                        assert(stripe_count(i, st, n as int) >= 1);
                        assert(!s0.cancelled);
                        assert(!(s0.cancelled || s0.scanned + stripe_count(i, st, n as int)
                            > cancel_after));
                        assert(s0.scanned < cancel_after);
                        assert(false);
                    }
                }
                break;
            },
            WorkerStep::Exhausted => {
                proof {
                    assert(false);
                }
            },
        }
    }
    proof {
        if worker.index >= n && !state.cancelled {
            assert(stripe_count(worker.index as int, st, n as int) == 0);
        }
        if fits {
            assert(stripe_opens(worker.index as int, st, ports@, reachable@) =~= Seq::empty());
            assert(state.open_ports@ + Seq::<u32>::empty() =~= state.open_ports@);
            assert(base.open_ports@ + stripe_opens(start0, st, ports@, reachable@)
                =~= state.open_ports@);
        }
    }
}

/// Runs a scan that an external signal cancels as soon as `cancel_after`
/// probes have completed: the report is drawn at once, with however much
/// had accumulated.  No more than `cancel_after` probes ever run, the
/// counters still add up, and nothing but truly open ports is reported —
/// a cancelled scan loses results, it never invents any.
pub fn run_scan_cancelled_after(
    ports: &Vec<u32>,
    worker_count: usize,
    reachable: &Vec<bool>,
    cancel_after: usize,
) -> (r: Result<ScanOutcome, ScanError>)
    requires
        reachable@.len() == ports@.len(),
        ports@.len() + worker_count <= usize::MAX,
    ensures
        (worker_count == 0) <==> (r is Err),
        r is Err ==> r->Err_0 == ScanError::InvalidConfiguration,
        r is Ok ==> r->Ok_0.scanned == capped(ports@.len() as int, cancel_after as int)
            && r->Ok_0.open + r->Ok_0.closed == r->Ok_0.scanned && r->Ok_0.open_ports@.len()
            == r->Ok_0.open && sorted(r->Ok_0.open_ports@) && (forall|q: u32|
            #[trigger] r->Ok_0.open_ports@.contains(q) ==> (exists|i: int|
                0 <= i < ports@.len() && reachable@[i] && #[trigger] ports@[i] == q)),
        r is Ok && ports@.len() <= cancel_after ==> r->Ok_0.open_ports@.to_multiset()
            == all_opens(ports@, reachable@).to_multiset() && (forall|q: u32|
            #[trigger] r->Ok_0.open_ports@.contains(q) <==> (exists|i: int|
                0 <= i < ports@.len() && reachable@[i] && #[trigger] ports@[i] == q)),
{
    broadcast use vstd::seq_lib::group_to_multiset_ensures;

    if worker_count == 0 {
        return Err(ScanError::InvalidConfiguration);
    }
    let n = worker_count;
    let len = ports.len();
    let mut state = ScanState::new();
    proof {
        lemma_counts_total(n as int, len as int);
        assert(state.open_ports@ + opens_from(0, n as int, ports@, reachable@) =~= opens_from(
            0,
            n as int,
            ports@,
            reachable@,
        ));
    }
    let mut w: usize = 0;
    while w < n
        invariant
            1 <= n,
            0 <= w <= n,
            len == ports@.len(),
            reachable@.len() == ports@.len(),
            len + n <= usize::MAX,
            state.wf(),
            state.scanned <= cancel_after,
            state.cancelled ==> state.scanned == cancel_after,
            capped(
                state.scanned + counts_from(w as int, n as int, len as int),
                cancel_after as int,
            ) == capped(len as int, cancel_after as int),
            (state.cancelled || state.scanned + counts_from(w as int, n as int, len as int)
                > cancel_after) == (len > cancel_after),
            forall|q: u32|
                #[trigger] state.open_ports@.contains(q) ==> (exists|i: int|
                    0 <= i < ports@.len() && reachable@[i] && #[trigger] ports@[i] == q),
            len <= cancel_after ==> !state.cancelled && state.open_ports@ + opens_from(
                w as int,
                n as int,
                ports@,
                reachable@,
            ) == opens_from(0, n as int, ports@, reachable@),
        decreases n - w,
    {
        let mut worker = Worker { index: w, stride: n };
        proof {
            lemma_counts_from_nonneg(w as int + 1, n as int, len as int);
            lemma_stripe_count_bounds(w as int, n as int, len as int);
            lemma_stripe_bounds(w as int, n as int, ports@, reachable@);
        }
        let ghost pre = state;
        run_worker_cancellable(&mut worker, ports, reachable, &mut state, cancel_after);
        proof {
            if len <= cancel_after {
                let ow = stripe_opens(w as int, n as int, ports@, reachable@);
                let rest = opens_from(w as int + 1, n as int, ports@, reachable@);
                assert(opens_from(w as int, n as int, ports@, reachable@) == ow + rest);
                assert((pre.open_ports@ + ow) + rest =~= pre.open_ports@ + (ow + rest));
                assert(state.open_ports@ + rest =~= opens_from(0, n as int, ports@, reachable@));
            }
        }
        w = w + 1;
    }
    proof {
        assert(counts_from(n as int, n as int, len as int) == 0);
        if len <= cancel_after {
            assert(opens_from(n as int, n as int, ports@, reachable@) =~= Seq::<u32>::empty());
            assert(state.open_ports@ + Seq::<u32>::empty() =~= state.open_ports@);
            assert(state.open_ports@ =~= opens_from(0, n as int, ports@, reachable@));
            lemma_opens_total(n as int, ports@, reachable@);
            lemma_all_opens_contains(ports@, reachable@);
        }
    }
    let outcome = finalize(&state);
    proof {
        assert forall|q: u32| #[trigger] outcome.open_ports@.contains(q) implies (exists|i: int|
            0 <= i < ports@.len() && reachable@[i] && #[trigger] ports@[i] == q) by {
            outcome.open_ports@.to_multiset_ensures();
            state.open_ports@.to_multiset_ensures();
            assert(outcome.open_ports@.to_multiset().count(q) > 0);
            assert(state.open_ports@.to_multiset().count(q) > 0);
            assert(state.open_ports@.contains(q));
        }
        if len <= cancel_after {
            assert forall|q: u32| (exists|i: int|
                0 <= i < ports@.len() && reachable@[i] && #[trigger] ports@[i] == q)
                implies #[trigger] outcome.open_ports@.contains(q) by {
                assert(all_opens(ports@, reachable@).contains(q));
                outcome.open_ports@.to_multiset_ensures();
                all_opens(ports@, reachable@).to_multiset_ensures();
                assert(all_opens(ports@, reachable@).to_multiset().count(q) > 0);
                assert(outcome.open_ports@.to_multiset().count(q) > 0);
            }
        }
    }
    Ok(outcome)
}

/// Runs a complete scan against a fixed reachability fixture: builds the
/// pool, drives every worker to exhaustion, and reports.  Every port is
/// attempted exactly once, the counters add up, and the reported set of
/// open ports is exactly the fixture's reachable ports — the same for
/// every worker count and every re-run.
pub fn run_scan(ports: &Vec<u32>, worker_count: usize, reachable: &Vec<bool>) -> (r: Result<
    ScanOutcome,
    ScanError,
>)
    requires
        reachable@.len() == ports@.len(),
        ports@.len() + worker_count <= usize::MAX,
    ensures
        (worker_count == 0) <==> (r is Err),
        r is Err ==> r->Err_0 == ScanError::InvalidConfiguration,
        r is Ok ==> r->Ok_0.scanned == ports@.len() && r->Ok_0.open + r->Ok_0.closed == r->Ok_0.scanned
            && r->Ok_0.open_ports@.len() == r->Ok_0.open && sorted(r->Ok_0.open_ports@)
            && r->Ok_0.open_ports@.to_multiset() == all_opens(ports@, reachable@).to_multiset()
            && (forall|q: u32|
            #[trigger] r->Ok_0.open_ports@.contains(q) <==> (exists|i: int|
                0 <= i < ports@.len() && reachable@[i] && #[trigger] ports@[i] == q)),
{
    broadcast use vstd::seq_lib::group_to_multiset_ensures;

    if worker_count == 0 {
        return Err(ScanError::InvalidConfiguration);
    }
    let n = worker_count;
    let len = ports.len();
    let mut state = ScanState::new();
    proof {
        lemma_counts_total(n as int, len as int);
        assert(state.open_ports@ + opens_from(0, n as int, ports@, reachable@) =~= opens_from(
            0,
            n as int,
            ports@,
            reachable@,
        ));
    }
    let mut w: usize = 0;
    while w < n
        invariant
            1 <= n,
            0 <= w <= n,
            len == ports@.len(),
            reachable@.len() == ports@.len(),
            len + n <= usize::MAX,
            state.wf(),
            !state.cancelled,
            state.open_ports@ + opens_from(w as int, n as int, ports@, reachable@) == opens_from(
                0,
                n as int,
                ports@,
                reachable@,
            ),
            state.scanned + counts_from(w as int, n as int, len as int) == len,
        decreases n - w,
    {
        let mut worker = Worker { index: w, stride: n };
        proof {
            lemma_counts_from_nonneg(w as int + 1, n as int, len as int);
            lemma_stripe_count_bounds(w as int, n as int, len as int);
            lemma_stripe_bounds(w as int, n as int, ports@, reachable@);
        }
        let ghost pre = state;
        run_worker(&mut worker, ports, reachable, &mut state);
        proof {
            let ow = stripe_opens(w as int, n as int, ports@, reachable@);
            let rest = opens_from(w as int + 1, n as int, ports@, reachable@);
            assert(opens_from(w as int, n as int, ports@, reachable@) == ow + rest);
            assert((pre.open_ports@ + ow) + rest =~= pre.open_ports@ + (ow + rest));
            assert(state.open_ports@ + rest =~= opens_from(0, n as int, ports@, reachable@));
        }
        w = w + 1;
    }
    proof {
        assert(opens_from(n as int, n as int, ports@, reachable@) =~= Seq::<u32>::empty());
        assert(state.open_ports@ + Seq::<u32>::empty() =~= state.open_ports@);
        assert(state.open_ports@ =~= opens_from(0, n as int, ports@, reachable@));
        assert(counts_from(n as int, n as int, len as int) == 0);
        assert(state.scanned == len);
        lemma_opens_total(n as int, ports@, reachable@);
        lemma_all_opens_contains(ports@, reachable@);
    }
    let outcome = finalize(&state);
    proof {
        assert(outcome.open_ports@.to_multiset() == all_opens(ports@, reachable@).to_multiset());
        assert forall|q: u32| #[trigger] outcome.open_ports@.contains(q) <==> (exists|i: int|
            0 <= i < ports@.len() && reachable@[i] && #[trigger] ports@[i] == q) by {
            outcome.open_ports@.to_multiset_ensures();
            all_opens(ports@, reachable@).to_multiset_ensures();
            assert(outcome.open_ports@.contains(q) <==> outcome.open_ports@.to_multiset().count(q)
                > 0);
            assert(all_opens(ports@, reachable@).contains(q) <==> all_opens(
                ports@,
                reachable@,
            ).to_multiset().count(q) > 0);
        }
    }
    Ok(outcome)
}

} // verus!
