//! A device pipeline as a whole: its job channel, its generators and its
//! executors, and what every step of one of them does to it.
//!
//! The generators and executors of a pipeline run side by side, but each of
//! their steps on the job channel is taken alone. So a run of the pipeline is
//! a sequence of the steps below, and what holds before and after each step
//! holds throughout.

use crate::executor::batch_failed;
use crate::executor::batch_responses;
use crate::executor::ExecutorView;
use crate::generator::GeneratorView;
use crate::job_channel::among;
use crate::job_channel::answer_all;
use crate::job_channel::lemma_answer_all;
use crate::job_channel::lemma_close_wf;
use crate::job_channel::lemma_enqueue_wf;
use crate::job_channel::lemma_forget_wf;
use crate::job_channel::lemma_hand_out_wf;
use crate::job_channel::lemma_pending_tickets;
use crate::job_channel::ticket_seq;
use crate::job_channel::tickets_of;
use crate::job_channel::ChannelView;
use crate::protocol::InferenceFailure;
use vstd::prelude::*;

verus! {

/// The state of a pipeline.
pub struct PipelineView<X, E, S, G> {
    pub channel: ChannelView<X, Result<E, InferenceFailure>>,
    pub generators: Seq<GeneratorView<S>>,
    pub executors: Seq<ExecutorView<G>>,
}

/// One step of a generator or an executor, or the closing of the channel.
pub enum Action<X, E, S, G> {
    /// A generator polls its settings slot, which gives `polled`.
    Poll { generator: int, polled: Option<S> },
    /// A generator submits the request that its search asks for.
    Request { generator: int, request: X },
    /// A generator looks for its response.
    Resume { generator: int },
    /// A graph arrives at an executor.
    Install { executor: int, graph: G },
    /// An executor is asked for its next batch.
    NextBatch { executor: int },
    /// An executor completes its batch with the outputs of the pass.
    Complete { executor: int, outputs: Result<Seq<E>, InferenceFailure> },
    /// The server side of the channel is closed.
    Close,
}

/// Whether the channel holds a job, a response or a cancellation under
/// `ticket`.
pub open spec fn known<X, Y>(channel: ChannelView<X, Y>, ticket: u64) -> bool {
    channel.is_waiting(ticket) || channel.answered.contains_key(ticket)
        || channel.cancelled.contains(ticket)
}

/// Whether `ticket` is in the running batch of an executor.
pub open spec fn runs<G>(executor: ExecutorView<G>, ticket: u64) -> bool {
    among(executor.running, executor.running.len(), ticket)
}

impl<X, E, S, G> PipelineView<X, E, S, G> {
    /// Whether `action` names a generator or an executor of the pipeline,
    /// and a ticket is left for a request.
    pub open spec fn admits(self, action: Action<X, E, S, G>) -> bool {
        match action {
            Action::Poll { generator, .. } => 0 <= generator < self.generators.len(),
            Action::Request { generator, .. } => 0 <= generator < self.generators.len()
                && self.channel.issued < u64::MAX,
            Action::Resume { generator } => 0 <= generator < self.generators.len(),
            Action::Install { executor, .. } => 0 <= executor < self.executors.len(),
            Action::NextBatch { executor } => 0 <= executor < self.executors.len(),
            Action::Complete { executor, .. } => 0 <= executor < self.executors.len(),
            Action::Close => true,
        }
    }

    /// The pipeline after `action`.
    pub open spec fn step(self, action: Action<X, E, S, G>) -> Self {
        let c = self.channel;
        match action {
            Action::Poll { generator, polled } => PipelineView {
                generators: self.generators.update(
                    generator,
                    self.generators[generator].adopt(polled),
                ),
                ..self
            },
            Action::Request { generator, request } => {
                let g = self.generators[generator];
                PipelineView {
                    channel: if g.searching() {
                        c.submit(request)
                    } else {
                        c
                    },
                    generators: self.generators.update(
                        generator,
                        g.request(c.closed, c.can_admit(), c.issued as u64),
                    ),
                    ..self
                }
            },
            Action::Resume { generator } => {
                let g = self.generators[generator];
                match g.awaiting {
                    Some(ticket) => PipelineView {
                        channel: c.forget(ticket),
                        generators: self.generators.update(
                            generator,
                            g.resume(c.is_waiting(ticket), c.answered.contains_key(ticket)),
                        ),
                        ..self
                    },
                    None => self,
                }
            },
            Action::Install { executor, graph } => PipelineView {
                executors: self.executors.update(executor, self.executors[executor].install(graph)),
                ..self
            },
            Action::NextBatch { executor } => {
                let e = self.executors[executor];
                let n = e.batch_target(c.closed, c.pending.len());
                PipelineView {
                    channel: c.hand_out(n),
                    executors: self.executors.update(
                        executor,
                        if n >= 1 {
                            e.begin(ticket_seq(c.pending.take(n as int)))
                        } else {
                            e
                        },
                    ),
                    ..self
                }
            },
            Action::Complete { executor, outputs } => {
                let e = self.executors[executor];
                let n = e.running.len();
                PipelineView {
                    channel: answer_all(c, e.running, batch_responses(n, outputs), n),
                    executors: self.executors.update(executor, e.finish(batch_failed(n, outputs))),
                    ..self
                }
            },
            Action::Close => PipelineView { channel: c.close(), ..self },
        }
    }

    /// What holds of a pipeline throughout its run.
    ///
    /// Every generator that waits, waits for a job of the channel; no two
    /// wait for the same; and every job of the channel has a generator that
    /// waits for it. Every job that is with a server is in the running batch
    /// of an executor. While the channel is open, the jobs of a running batch
    /// are with a server, and no job is in two batches or twice in one.
    pub open spec fn coherent(self) -> bool {
        &&& self.channel.wf()
        &&& forall|j: int| 0 <= j < self.executors.len() ==> (#[trigger] self.executors[j]).wf()
        &&& forall|i: int|
            0 <= i < self.generators.len() ==> ((#[trigger] self.generators[i]).awaiting matches Some(
                ticket,
            ) ==> known(self.channel, ticket))
        &&& forall|i: int, k: int|
            #![trigger self.generators[i], self.generators[k]]
            0 <= i < k < self.generators.len() && self.generators[i].awaiting is Some
                ==> self.generators[i].awaiting != self.generators[k].awaiting
        &&& forall|ticket: u64|
            #![trigger known(self.channel, ticket)]
            known(self.channel, ticket) ==> self.awaited(ticket)
        &&& forall|ticket: u64|
            #![trigger self.channel.in_flight.contains(ticket)]
            self.channel.in_flight.contains(ticket) ==> self.in_a_batch(ticket)
        &&& !self.channel.closed ==> {
            &&& forall|j: int, ticket: u64|
                #![trigger runs(self.executors[j], ticket)]
                0 <= j < self.executors.len() && runs(self.executors[j], ticket)
                    ==> self.channel.in_flight.contains(ticket)
            &&& forall|j: int, a: int, b: int|
                #![trigger self.executors[j].running[a], self.executors[j].running[b]]
                0 <= j < self.executors.len() && 0 <= a < b < self.executors[j].running.len()
                    ==> self.executors[j].running[a] != self.executors[j].running[b]
            &&& forall|j: int, k: int, ticket: u64|
                #![trigger runs(self.executors[j], ticket), runs(self.executors[k], ticket)]
                0 <= j < k < self.executors.len() && runs(self.executors[j], ticket) ==> !runs(
                    self.executors[k],
                    ticket,
                )
        }
    }

    /// Whether a generator waits for the job under `ticket`.
    pub open spec fn awaited(self, ticket: u64) -> bool {
        exists|i: int|
            0 <= i < self.generators.len() && (#[trigger] self.generators[i]).awaiting == Some(
                ticket,
            )
    }

    /// Whether the job under `ticket` is in the running batch of an executor.
    pub open spec fn in_a_batch(self, ticket: u64) -> bool {
        exists|j: int| 0 <= j < self.executors.len() && runs(#[trigger] self.executors[j], ticket)
    }

    /// The pipeline after `actions`, one after the other.
    pub open spec fn run(self, actions: Seq<Action<X, E, S, G>>) -> Self
        decreases actions.len(),
    {
        if actions.len() == 0 {
            self
        } else {
            self.run(actions.drop_last()).step(actions.last())
        }
    }

    /// Whether each of `actions` is admitted where it is taken.
    pub open spec fn admits_all(self, actions: Seq<Action<X, E, S, G>>) -> bool
        decreases actions.len(),
    {
        actions.len() > 0 ==> self.admits_all(actions.drop_last()) && self.run(
            actions.drop_last(),
        ).admits(actions.last())
    }

    /// A pipeline on which nothing has started: its channel is fresh, no
    /// generator waits and no executor runs a batch.
    pub open spec fn fresh(self) -> bool {
        &&& self.channel == ChannelView::<X, Result<E, InferenceFailure>>::open(
            self.channel.capacity,
        )
        &&& forall|i: int|
            0 <= i < self.generators.len() ==> (#[trigger] self.generators[i]).awaiting is None
        &&& forall|j: int|
            0 <= j < self.executors.len() ==> (#[trigger] self.executors[j]).wf()
                && self.executors[j].running.len() == 0
    }
}

/// Handing jobs to a server keeps every job of the channel in the channel.
pub proof fn lemma_hand_out_known<X, Y>(c: ChannelView<X, Y>, n: nat, ticket: u64)
    requires
        c.wf(),
        n <= c.pending.len(),
    ensures
        known(c.hand_out(n), ticket) <==> known(c, ticket),
        c.hand_out(n).in_flight.contains(ticket) <==> c.in_flight.contains(ticket) || among(
            ticket_seq(c.pending.take(n as int)),
            n,
            ticket,
        ),
        among(ticket_seq(c.pending.take(n as int)), n, ticket) <==> c.issued - c.pending.len()
            <= ticket < c.issued - c.pending.len() + n,
{
    let h = c.hand_out(n);
    let taken = c.pending.take(n as int);
    let base = c.issued - c.pending.len();
    lemma_hand_out_wf(c, n);
    lemma_pending_tickets(c, ticket);
    lemma_pending_tickets(h, ticket);
    if tickets_of(taken).contains(ticket) {
        let i = choose|i: int| 0 <= i < taken.len() && #[trigger] taken[i].ticket == ticket;
        assert(c.pending[i].ticket == ticket);
        assert(ticket_seq(taken)[i] == ticket);
    }
    if among(ticket_seq(taken), n, ticket) {
        let i = choose|i: int| 0 <= i < n && #[trigger] ticket_seq(taken)[i] == ticket;
        assert(taken[i].ticket == ticket);
        assert(c.pending[i].ticket == ticket);
    }
    if base <= ticket < base + n {
        let i = ticket - base;
        assert(c.pending[i].ticket == ticket);
        assert(taken[i].ticket == ticket);
        assert(ticket_seq(taken)[i] == ticket);
    }
}

/// A reply under a ticket that is with no server changes nothing, so a batch
/// of such replies changes nothing.
pub proof fn lemma_answer_none<X, Y>(
    c: ChannelView<X, Y>,
    tickets: Seq<u64>,
    responses: Seq<Y>,
    upto: nat,
)
    requires
        forall|i: int| 0 <= i < upto ==> !c.in_flight.contains(#[trigger] tickets[i]),
    ensures
        answer_all(c, tickets, responses, upto) == c,
    decreases upto,
{
    if upto > 0 {
        lemma_answer_none(c, tickets, responses, (upto - 1) as nat);
    }
}

/// A job that runs on an executor still does where the executors are the
/// same.
proof fn lemma_running_carried<X, E, S, G>(
    p: PipelineView<X, E, S, G>,
    q: PipelineView<X, E, S, G>,
    ticket: u64,
)
    requires
        p.coherent(),
        p.channel.in_flight.contains(ticket),
        q.executors == p.executors,
    ensures
        q.in_a_batch(ticket),
{
    assert(p.in_a_batch(ticket));
    let j = choose|j: int| 0 <= j < p.executors.len() && runs(#[trigger] p.executors[j], ticket);
    assert(runs(q.executors[j], ticket));
}

/// A job that a generator waits for still has one where the generators are
/// the same.
proof fn lemma_awaited_carried<X, E, S, G>(
    p: PipelineView<X, E, S, G>,
    q: PipelineView<X, E, S, G>,
    ticket: u64,
)
    requires
        p.coherent(),
        known(p.channel, ticket),
        q.generators == p.generators,
    ensures
        q.awaited(ticket),
{
    assert(p.awaited(ticket));
    let i = choose|i: int|
        0 <= i < p.generators.len() && (#[trigger] p.generators[i]).awaiting == Some(ticket);
    assert(q.generators[i].awaiting == Some(ticket));
}

/// A step of a generator on its own settings keeps the pipeline coherent.
proof fn lemma_poll_coherent<X, E, S, G>(
    p: PipelineView<X, E, S, G>,
    generator: int,
    polled: Option<S>,
)
    requires
        p.coherent(),
        0 <= generator < p.generators.len(),
    ensures
        p.step(Action::Poll { generator, polled }).coherent(),
{
    let q = p.step(Action::Poll { generator, polled });
    assert forall|i: int| 0 <= i < q.generators.len() implies (#[trigger] q.generators[i]).awaiting
        == p.generators[i].awaiting by {}
    assert forall|ticket: u64| #![trigger known(q.channel, ticket)] known(q.channel, ticket)
        implies q.awaited(ticket) by {
        assert(p.awaited(ticket));
        let i = choose|i: int|
            0 <= i < p.generators.len() && (#[trigger] p.generators[i]).awaiting == Some(ticket);
        assert(q.generators[i].awaiting == Some(ticket));
    }
    assert forall|ticket: u64|
        #![trigger q.channel.in_flight.contains(ticket)]
        q.channel.in_flight.contains(ticket) implies q.in_a_batch(ticket) by {
        lemma_running_carried(p, q, ticket);
    }
}

/// A submission keeps the pipeline coherent.
proof fn lemma_request_coherent<X, E, S, G>(
    p: PipelineView<X, E, S, G>,
    generator: int,
    request: X,
)
    requires
        p.coherent(),
        0 <= generator < p.generators.len(),
        p.channel.issued < u64::MAX,
    ensures
        p.step(Action::Request { generator, request }).coherent(),
{
    let q = p.step(Action::Request { generator, request });
    let c = p.channel;
    let g = p.generators[generator];
    let fresh = c.issued as u64;
    lemma_pending_tickets(c, fresh);
    if g.searching() && c.can_admit() {
        lemma_enqueue_wf(c, request);
        assert forall|ticket: u64| known(q.channel, ticket) <==> known(c, ticket) || ticket
            == fresh by {
            lemma_pending_tickets(c, ticket);
            lemma_pending_tickets(q.channel, ticket);
        }
        assert(!known(c, fresh));
        assert forall|i: int| 0 <= i < q.generators.len() implies ((
        #[trigger] q.generators[i]).awaiting matches Some(ticket) ==> known(q.channel, ticket)) by {
            if i != generator {
                assert(q.generators[i] == p.generators[i]);
            }
        }
        assert forall|i: int, k: int|
            #![trigger q.generators[i], q.generators[k]]
            0 <= i < k < q.generators.len() && q.generators[i].awaiting is Some
                implies q.generators[i].awaiting != q.generators[k].awaiting by {
            if i != generator {
                assert(q.generators[i] == p.generators[i]);
            }
            if k != generator {
                assert(q.generators[k] == p.generators[k]);
            }
        }
        assert forall|ticket: u64| #![trigger known(q.channel, ticket)] known(q.channel, ticket)
            implies q.awaited(ticket) by {
            if ticket == fresh {
                assert(q.generators[generator].awaiting == Some(ticket));
            } else {
                assert(known(c, ticket));
                assert(p.awaited(ticket));
                let i = choose|i: int|
                    0 <= i < p.generators.len() && (#[trigger] p.generators[i]).awaiting == Some(
                        ticket,
                    );
                assert(i != generator);
                assert(q.generators[i].awaiting == Some(ticket));
            }
        }
    } else {
        assert(q.channel == c);
        assert forall|i: int| 0 <= i < q.generators.len() implies (
        #[trigger] q.generators[i]).awaiting == p.generators[i].awaiting by {}
        assert forall|ticket: u64| #![trigger known(q.channel, ticket)] known(q.channel, ticket)
            implies q.awaited(ticket) by {
            assert(p.awaited(ticket));
            let i = choose|i: int|
                0 <= i < p.generators.len() && (#[trigger] p.generators[i]).awaiting == Some(
                    ticket,
                );
            assert(q.generators[i].awaiting == Some(ticket));
        }
    }
    assert forall|ticket: u64|
        #![trigger q.channel.in_flight.contains(ticket)]
        q.channel.in_flight.contains(ticket) implies q.in_a_batch(ticket) by {
        lemma_running_carried(p, q, ticket);
    }
}

/// A look for a response keeps the pipeline coherent.
proof fn lemma_resume_coherent<X, E, S, G>(p: PipelineView<X, E, S, G>, generator: int)
    requires
        p.coherent(),
        0 <= generator < p.generators.len(),
    ensures
        p.step(Action::Resume { generator }).coherent(),
{
    let q = p.step(Action::Resume { generator });
    let c = p.channel;
    let g = p.generators[generator];
    if g.awaiting is Some {
        let mine = g.awaiting->Some_0;
        lemma_forget_wf(c, mine);
        lemma_pending_tickets(c, mine);
        assert(known(c, mine));
        let gone = !c.is_waiting(mine);
        assert forall|ticket: u64| known(q.channel, ticket) <==> known(c, ticket) && !(gone
            && ticket == mine) by {
            lemma_pending_tickets(c, ticket);
        }
        assert forall|i: int| 0 <= i < q.generators.len() implies ((
        #[trigger] q.generators[i]).awaiting matches Some(ticket) ==> known(q.channel, ticket)) by {
            if i != generator {
                assert(q.generators[i] == p.generators[i]);
                if i < generator {
                    assert(p.generators[i].awaiting != p.generators[generator].awaiting);
                } else {
                    assert(p.generators[generator].awaiting != p.generators[i].awaiting);
                }
            }
        }
        assert forall|i: int, k: int|
            #![trigger q.generators[i], q.generators[k]]
            0 <= i < k < q.generators.len() && q.generators[i].awaiting is Some
                implies q.generators[i].awaiting != q.generators[k].awaiting by {
            if i != generator {
                assert(q.generators[i] == p.generators[i]);
            }
            if k != generator {
                assert(q.generators[k] == p.generators[k]);
            }
            assert(p.generators[i].awaiting is Some);
        }
        assert forall|ticket: u64| #![trigger known(q.channel, ticket)] known(q.channel, ticket)
            implies q.awaited(ticket) by {
            assert(known(c, ticket));
            assert(p.awaited(ticket));
            let i = choose|i: int|
                0 <= i < p.generators.len() && (#[trigger] p.generators[i]).awaiting == Some(
                    ticket,
                );
            if i != generator {
                assert(q.generators[i] == p.generators[i]);
            }
            assert(q.generators[i].awaiting == Some(ticket));
        }
        assert forall|ticket: u64|
            #![trigger q.channel.in_flight.contains(ticket)]
            q.channel.in_flight.contains(ticket) implies q.in_a_batch(ticket) by {
            lemma_running_carried(p, q, ticket);
        }
    }
}

/// The arrival of a graph keeps the pipeline coherent.
proof fn lemma_install_coherent<X, E, S, G>(p: PipelineView<X, E, S, G>, executor: int, graph: G)
    requires
        p.coherent(),
        0 <= executor < p.executors.len(),
    ensures
        p.step(Action::Install { executor, graph }).coherent(),
{
    let q = p.step(Action::Install { executor, graph });
    assert forall|j: int| 0 <= j < q.executors.len() implies (#[trigger] q.executors[j]).running
        == p.executors[j].running && q.executors[j].wf() by {
        assert(p.executors[j].wf());
    }
    assert forall|ticket: u64| #![trigger known(q.channel, ticket)] known(q.channel, ticket)
        implies q.awaited(ticket) by {
        lemma_awaited_carried(p, q, ticket);
    }
    assert forall|ticket: u64|
        #![trigger q.channel.in_flight.contains(ticket)]
        q.channel.in_flight.contains(ticket) implies q.in_a_batch(ticket) by {
        assert(p.in_a_batch(ticket));
        let j = choose|j: int| 0 <= j < p.executors.len() && runs(#[trigger] p.executors[j], ticket);
        assert(runs(q.executors[j], ticket));
    }
    if !q.channel.closed {
        assert forall|j: int, ticket: u64|
            #![trigger runs(q.executors[j], ticket)]
            0 <= j < q.executors.len() && runs(q.executors[j], ticket)
                implies q.channel.in_flight.contains(ticket) by {
            assert(runs(p.executors[j], ticket));
        }
        assert forall|j: int, a: int, b: int|
            #![trigger q.executors[j].running[a], q.executors[j].running[b]]
            0 <= j < q.executors.len() && 0 <= a < b < q.executors[j].running.len()
                implies q.executors[j].running[a] != q.executors[j].running[b] by {
            assert(p.executors[j].running[a] != p.executors[j].running[b]);
        }
        assert forall|j: int, k: int, ticket: u64|
            #![trigger runs(q.executors[j], ticket), runs(q.executors[k], ticket)]
            0 <= j < k < q.executors.len() && runs(q.executors[j], ticket) implies !runs(
            q.executors[k],
            ticket,
        ) by {
            assert(runs(p.executors[j], ticket));
            assert(!runs(p.executors[k], ticket));
        }
    }
}

/// Forming a batch keeps the pipeline coherent.
proof fn lemma_next_batch_coherent<X, E, S, G>(p: PipelineView<X, E, S, G>, executor: int)
    requires
        p.coherent(),
        0 <= executor < p.executors.len(),
    ensures
        p.step(Action::NextBatch { executor }).coherent(),
{
    let q = p.step(Action::NextBatch { executor });
    let c = p.channel;
    let e = p.executors[executor];
    let n = e.batch_target(c.closed, c.pending.len());
    let h = c.hand_out(n);
    let tickets = ticket_seq(c.pending.take(n as int));
    assert(e.wf());
    lemma_hand_out_wf(c, n);
    assert forall|ticket: u64|
        (known(h, ticket) <==> known(c, ticket)) && (h.in_flight.contains(ticket)
            <==> c.in_flight.contains(ticket) || among(tickets, n, ticket)) && (among(
            tickets,
            n,
            ticket,
        ) ==> !c.in_flight.contains(ticket)) by {
        lemma_hand_out_known(c, n, ticket);
    }
    assert forall|i: int| 0 <= i < q.generators.len() implies ((
    #[trigger] q.generators[i]).awaiting matches Some(ticket) ==> known(q.channel, ticket)) by {
        if q.generators[i].awaiting is Some {
            assert(known(c, p.generators[i].awaiting->Some_0));
        }
    }
    assert forall|ticket: u64| #![trigger known(q.channel, ticket)] known(q.channel, ticket)
        implies q.awaited(ticket) by {
        lemma_awaited_carried(p, q, ticket);
    }
    if n == 0 {
        assert(q.executors =~= p.executors);
        assert(q.channel.in_flight =~= c.in_flight);
        assert forall|ticket: u64|
            #![trigger q.channel.in_flight.contains(ticket)]
            q.channel.in_flight.contains(ticket) implies q.in_a_batch(ticket) by {
            lemma_running_carried(p, q, ticket);
        }
    } else {
        assert(e.running.len() == 0);
        assert(q.executors[executor].running == tickets);
        assert forall|j: int| 0 <= j < q.executors.len() implies (#[trigger] q.executors[j]).wf() by {
            if j != executor {
                assert(q.executors[j] == p.executors[j]);
            }
        }
        assert forall|j: int, ticket: u64|
            #![trigger runs(q.executors[j], ticket)]
            0 <= j < q.executors.len() && j != executor implies runs(q.executors[j], ticket)
                == runs(p.executors[j], ticket) by {
            assert(q.executors[j] == p.executors[j]);
        }
        assert forall|ticket: u64| !runs(e, ticket) by {}
        assert forall|ticket: u64|
            #![trigger q.channel.in_flight.contains(ticket)]
            q.channel.in_flight.contains(ticket) implies q.in_a_batch(ticket) by {
            if c.in_flight.contains(ticket) {
                assert(p.in_a_batch(ticket));
                let j = choose|j: int|
                    0 <= j < p.executors.len() && runs(#[trigger] p.executors[j], ticket);
                assert(j != executor);
                assert(runs(q.executors[j], ticket));
            } else {
                assert(runs(q.executors[executor], ticket));
            }
        }
        assert forall|j: int, ticket: u64|
            #![trigger runs(q.executors[j], ticket)]
            0 <= j < q.executors.len() && runs(q.executors[j], ticket)
                implies q.channel.in_flight.contains(ticket) by {
            if j != executor {
                assert(runs(p.executors[j], ticket));
            }
        }
        assert forall|j: int, a: int, b: int|
            #![trigger q.executors[j].running[a], q.executors[j].running[b]]
            0 <= j < q.executors.len() && 0 <= a < b < q.executors[j].running.len()
                implies q.executors[j].running[a] != q.executors[j].running[b] by {
            if j != executor {
                assert(q.executors[j] == p.executors[j]);
                assert(p.executors[j].running[a] != p.executors[j].running[b]);
            } else {
                assert(c.pending[a].ticket != c.pending[b].ticket);
            }
        }
        assert forall|j: int, k: int, ticket: u64|
            #![trigger runs(q.executors[j], ticket), runs(q.executors[k], ticket)]
            0 <= j < k < q.executors.len() && runs(q.executors[j], ticket) implies !runs(
            q.executors[k],
            ticket,
        ) by {
            if j != executor && k != executor {
                assert(runs(p.executors[j], ticket));
                assert(!runs(p.executors[k], ticket));
            } else if j == executor {
                if runs(q.executors[k], ticket) {
                    assert(runs(p.executors[k], ticket));
                }
            } else {
                assert(runs(p.executors[j], ticket));
            }
        }
    }
}

/// Completing a batch keeps the pipeline coherent.
proof fn lemma_complete_coherent<X, E, S, G>(
    p: PipelineView<X, E, S, G>,
    executor: int,
    outputs: Result<Seq<E>, InferenceFailure>,
)
    requires
        p.coherent(),
        0 <= executor < p.executors.len(),
    ensures
        p.step(Action::Complete { executor, outputs }).coherent(),
{
    let q = p.step(Action::Complete { executor, outputs });
    let c = p.channel;
    let e = p.executors[executor];
    let n = e.running.len();
    let responses = batch_responses(n, outputs);
    assert(e.wf());
    assert(q.executors[executor].running.len() == 0);
    assert forall|j: int| 0 <= j < q.executors.len() implies (#[trigger] q.executors[j]).wf() by {
        if j != executor {
            assert(q.executors[j] == p.executors[j]);
        }
    }
    assert forall|j: int, ticket: u64|
        #![trigger runs(q.executors[j], ticket)]
        0 <= j < q.executors.len() implies runs(q.executors[j], ticket) == (j != executor && runs(
            p.executors[j],
            ticket,
        )) by {
        if j != executor {
            assert(q.executors[j] == p.executors[j]);
        }
    }
    if c.closed {
        lemma_answer_none(c, e.running, responses, n);
        assert forall|i: int| 0 <= i < q.generators.len() implies ((
        #[trigger] q.generators[i]).awaiting matches Some(ticket) ==> known(q.channel, ticket)) by {
            assert(q.generators[i] == p.generators[i]);
        }
        assert forall|ticket: u64| #![trigger known(q.channel, ticket)] known(q.channel, ticket)
            implies q.awaited(ticket) by {
            lemma_awaited_carried(p, q, ticket);
        }
    } else {
        assert forall|a: int| 0 <= a < n implies c.in_flight.contains(#[trigger] e.running[a]) by {
            assert(runs(e, e.running[a]));
        }
        assert forall|a: int, b: int| 0 <= a < b < n implies e.running[a] != e.running[b] by {
            assert(p.executors[executor].running[a] != p.executors[executor].running[b]);
        }
        lemma_answer_all(c, e.running, responses, n);
        let r = q.channel;
        assert forall|ticket: u64| known(r, ticket) <==> known(c, ticket) by {
            if among(e.running, n, ticket) {
                let a = choose|a: int| 0 <= a < n && #[trigger] e.running[a] == ticket;
                assert(r.answered.contains_key(e.running[a]));
                assert(c.in_flight.contains(e.running[a]));
            } else {
                assert(r.in_flight.contains(ticket) <==> c.in_flight.contains(ticket));
                assert(r.answered.contains_key(ticket) <==> c.answered.contains_key(ticket));
            }
        }
        assert forall|i: int| 0 <= i < q.generators.len() implies ((
        #[trigger] q.generators[i]).awaiting matches Some(ticket) ==> known(q.channel, ticket)) by {
            if q.generators[i].awaiting is Some {
                assert(known(c, p.generators[i].awaiting->Some_0));
            }
        }
        assert forall|ticket: u64| #![trigger known(q.channel, ticket)] known(q.channel, ticket)
            implies q.awaited(ticket) by {
            lemma_awaited_carried(p, q, ticket);
        }
        assert forall|ticket: u64|
            #![trigger q.channel.in_flight.contains(ticket)]
            q.channel.in_flight.contains(ticket) implies q.in_a_batch(ticket) by {
            assert(c.in_flight.contains(ticket) && !among(e.running, n, ticket));
            assert(p.in_a_batch(ticket));
            let j = choose|j: int|
                0 <= j < p.executors.len() && runs(#[trigger] p.executors[j], ticket);
            assert(j != executor);
            assert(runs(q.executors[j], ticket));
        }
        assert forall|j: int, ticket: u64|
            #![trigger runs(q.executors[j], ticket)]
            0 <= j < q.executors.len() && runs(q.executors[j], ticket)
                implies q.channel.in_flight.contains(ticket) by {
            assert(runs(p.executors[j], ticket));
            if j < executor {
                assert(!runs(p.executors[executor], ticket));
            } else {
                assert(!runs(p.executors[executor], ticket)) by {
                    if runs(p.executors[executor], ticket) {
                        assert(!runs(p.executors[j], ticket));
                    }
                }
            }
            assert(r.in_flight.contains(ticket) <==> c.in_flight.contains(ticket) && !among(
                e.running,
                n,
                ticket,
            ));
        }
        assert forall|j: int, a: int, b: int|
            #![trigger q.executors[j].running[a], q.executors[j].running[b]]
            0 <= j < q.executors.len() && 0 <= a < b < q.executors[j].running.len()
                implies q.executors[j].running[a] != q.executors[j].running[b] by {
            assert(q.executors[j] == p.executors[j]);
            assert(p.executors[j].running[a] != p.executors[j].running[b]);
        }
        assert forall|j: int, k: int, ticket: u64|
            #![trigger runs(q.executors[j], ticket), runs(q.executors[k], ticket)]
            0 <= j < k < q.executors.len() && runs(q.executors[j], ticket) implies !runs(
            q.executors[k],
            ticket,
        ) by {
            assert(runs(p.executors[j], ticket));
            if k != executor {
                assert(!runs(p.executors[k], ticket));
            }
        }
    }
}

/// Closing the channel keeps the pipeline coherent.
proof fn lemma_close_coherent<X, E, S, G>(p: PipelineView<X, E, S, G>)
    requires
        p.coherent(),
    ensures
        p.step(Action::Close).coherent(),
{
    let q = p.step(Action::Close);
    let c = p.channel;
    lemma_close_wf(c);
    assert forall|ticket: u64| known(q.channel, ticket) <==> known(c, ticket) by {
        lemma_pending_tickets(c, ticket);
        lemma_pending_tickets(q.channel, ticket);
    }
    assert forall|i: int| 0 <= i < q.generators.len() implies ((
    #[trigger] q.generators[i]).awaiting matches Some(ticket) ==> known(q.channel, ticket)) by {
        if q.generators[i].awaiting is Some {
            assert(known(c, p.generators[i].awaiting->Some_0));
        }
    }
    assert forall|ticket: u64| #![trigger known(q.channel, ticket)] known(q.channel, ticket)
        implies q.awaited(ticket) by {
        lemma_awaited_carried(p, q, ticket);
    }
}

/// Every step keeps a pipeline coherent.
pub proof fn law_step_keeps_coherent<X, E, S, G>(
    p: PipelineView<X, E, S, G>,
    action: Action<X, E, S, G>,
)
    requires
        p.coherent(),
        p.admits(action),
    ensures
        p.step(action).coherent(),
{
    match action {
        Action::Poll { generator, polled } => lemma_poll_coherent(p, generator, polled),
        Action::Request { generator, request } => lemma_request_coherent(p, generator, request),
        Action::Resume { generator } => lemma_resume_coherent(p, generator),
        Action::Install { executor, graph } => lemma_install_coherent(p, executor, graph),
        Action::NextBatch { executor } => lemma_next_batch_coherent(p, executor),
        Action::Complete { executor, outputs } => lemma_complete_coherent(p, executor, outputs),
        Action::Close => lemma_close_coherent(p),
    }
}

/// A pipeline is coherent throughout every run.
///
/// A pipeline on which nothing has started is coherent, and whatever its
/// generators and executors do, in whatever order, it stays so: never more
/// jobs are unanswered than the channel admits, every waiting generator has
/// its job in the channel, and every job that a server took is in the hands
/// of an executor.
pub proof fn law_every_run_is_coherent<X, E, S, G>(
    p: PipelineView<X, E, S, G>,
    actions: Seq<Action<X, E, S, G>>,
)
    requires
        p.fresh() || p.coherent(),
        p.admits_all(actions),
    ensures
        p.run(actions).coherent(),
        p.run(actions).channel.outstanding() <= p.channel.capacity,
        p.run(actions).channel.capacity == p.channel.capacity,
        p.run(actions).generators.len() == p.generators.len(),
        p.run(actions).executors.len() == p.executors.len(),
    decreases actions.len(),
{
    if actions.len() == 0 {
        if p.fresh() {
            assert forall|ticket: u64| !known(p.channel, ticket) by {
                lemma_pending_tickets(p.channel, ticket);
            }
            assert forall|j: int, ticket: u64|
                #![trigger runs(p.executors[j], ticket)]
                0 <= j < p.executors.len() implies !runs(p.executors[j], ticket) by {
                assert(p.executors[j].running.len() == 0);
            }
        }
    } else {
        let before = p.run(actions.drop_last());
        law_every_run_is_coherent(p, actions.drop_last());
        law_step_keeps_coherent(before, actions.last());
        lemma_step_keeps_shape(before, actions.last());
    }
}

/// A step changes neither the channel's capacity nor the number of
/// generators and executors.
proof fn lemma_step_keeps_shape<X, E, S, G>(
    p: PipelineView<X, E, S, G>,
    action: Action<X, E, S, G>,
)
    requires
        p.coherent(),
        p.admits(action),
    ensures
        p.step(action).channel.capacity == p.channel.capacity,
        p.step(action).generators.len() == p.generators.len(),
        p.step(action).executors.len() == p.executors.len(),
{
    match action {
        Action::Complete { executor, outputs } => {
            let e = p.executors[executor];
            let n = e.running.len();
            lemma_answer_capacity(p.channel, e.running, batch_responses(n, outputs), n);
        },
        _ => {},
    }
}

/// Replies change nothing of a channel's capacity.
proof fn lemma_answer_capacity<X, Y>(
    c: ChannelView<X, Y>,
    tickets: Seq<u64>,
    responses: Seq<Y>,
    upto: nat,
)
    ensures
        answer_all(c, tickets, responses, upto).capacity == c.capacity,
    decreases upto,
{
    if upto > 0 {
        lemma_answer_capacity(c, tickets, responses, (upto - 1) as nat);
    }
}

/// No response is lost on the way.
///
/// In a coherent pipeline a generator that waits finds its job in the
/// channel: queued, with a server, answered or cancelled. So its look for
/// the response never comes back empty-handed, and once the job is answered
/// or cancelled the generator is free or stopped.
pub proof fn law_no_response_is_lost<X, E, S, G>(p: PipelineView<X, E, S, G>, generator: int)
    requires
        p.coherent(),
        0 <= generator < p.generators.len(),
        p.generators[generator].awaiting is Some,
    ensures
        ({
            let ticket = p.generators[generator].awaiting->Some_0;
            let after = p.step(Action::Resume { generator }).generators[generator];
            &&& known(p.channel, ticket)
            &&& p.channel.is_waiting(ticket) ==> after == p.generators[generator]
            &&& !p.channel.is_waiting(ticket) ==> after.awaiting is None
            &&& p.channel.answered.contains_key(ticket) ==> after.stopped
                == p.generators[generator].stopped
            &&& p.channel.cancelled.contains(ticket) ==> after.stopped
        }),
{
    lemma_pending_tickets(p.channel, p.generators[generator].awaiting->Some_0);
}

/// No job is dropped by its executor.
///
/// In a coherent pipeline with an open channel, completing a batch files
/// for each of its jobs the response that belongs to it: the output of its
/// place, or a failure where the pass failed. Afterwards none of these jobs
/// is with a server.
pub proof fn law_no_job_is_dropped<X, E, S, G>(
    p: PipelineView<X, E, S, G>,
    executor: int,
    outputs: Result<Seq<E>, InferenceFailure>,
)
    requires
        p.coherent(),
        !p.channel.closed,
        0 <= executor < p.executors.len(),
    ensures
        ({
            let batch = p.executors[executor].running;
            let responses = batch_responses(batch.len(), outputs);
            let after = p.step(Action::Complete { executor, outputs }).channel;
            &&& forall|a: int|
                0 <= a < batch.len() ==> after.answered.contains_key(#[trigger] batch[a])
                    && after.answered[batch[a]] == responses[a] && !after.in_flight.contains(
                    batch[a],
                )
            &&& after.outstanding() + batch.len() == p.channel.outstanding()
        }),
{
    let e = p.executors[executor];
    let n = e.running.len();
    let responses = batch_responses(n, outputs);
    assert forall|a: int| 0 <= a < n implies p.channel.in_flight.contains(#[trigger] e.running[a]) by {
        assert(runs(e, e.running[a]));
    }
    assert forall|a: int, b: int| 0 <= a < b < n implies e.running[a] != e.running[b] by {
        assert(p.executors[executor].running[a] != p.executors[executor].running[b]);
    }
    lemma_answer_all(p.channel, e.running, responses, n);
    let after = p.step(Action::Complete { executor, outputs }).channel;
    assert forall|a: int| 0 <= a < n implies !after.in_flight.contains(#[trigger] e.running[a]) by {
        assert(among(e.running, n, e.running[a]));
    }
}

} // verus!
