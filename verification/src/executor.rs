//! The decisions of an executor: when a batch is formed, which graph it runs
//! on, and how its outcome is answered.
//!
//! An executor drains a job channel in batches. Between forming a batch and
//! completing it the caller runs the accelerator pass; the executor itself
//! never waits.

use crate::job_channel::Drained;
use crate::job_channel::Job;
use crate::job_channel::JobChannel;
use crate::job_channel::answer_all;
use crate::job_channel::lemma_hand_out_none;
use crate::job_channel::ticket_seq;
use crate::protocol::BatchPolicy;
use crate::protocol::ConfigurationError;
use crate::protocol::InferenceFailure;
use vstd::prelude::*;

verus! {

/// What an executor decides when it is asked for its next batch.
#[derive(Debug, PartialEq, Eq)]
pub enum Step<X> {
    /// These jobs are to run as one batch on the executor's graph.
    Run(Vec<Job<X>>),
    /// Too few requests are pending.
    Wait,
    /// No graph has arrived yet.
    AwaitGraph,
    /// The batch formed before has not been completed.
    Busy,
    /// The channel is closed: the executor is to exit.
    Shutdown,
    /// An inference failed before: the executor has stopped.
    Failed,
}

/// The responses to a batch of `n` jobs: the outputs, one per job and in the
/// jobs' order, or a failure for every job where the pass failed or did not
/// give one output per job.
pub open spec fn batch_responses<E>(n: nat, outputs: Result<Seq<E>, InferenceFailure>) -> Seq<
    Result<E, InferenceFailure>,
> {
    match outputs {
        Ok(values) if values.len() == n => Seq::new(n, |i: int| Ok(values[i])),
        _ => Seq::new(n, |i: int| Err(InferenceFailure)),
    }
}

/// The outputs of a pass as a plain value.
pub open spec fn outputs_view<E>(outputs: Result<Vec<E>, InferenceFailure>) -> Result<
    Seq<E>,
    InferenceFailure,
> {
    match outputs {
        Ok(values) => Ok(values@),
        Err(failure) => Err(failure),
    }
}

/// Whether a batch of `n` jobs with these outputs counts as failed.
pub open spec fn batch_failed<E>(n: nat, outputs: Result<Seq<E>, InferenceFailure>) -> bool {
    match outputs {
        Ok(values) => values.len() != n,
        Err(_) => true,
    }
}

/// The state of an executor.
pub struct ExecutorView<G> {
    /// How many requests one accelerator pass accepts.
    pub batch_size: nat,
    /// What is done with fewer pending requests.
    pub policy: BatchPolicy,
    /// The graph that batches run on.
    pub graph: Option<G>,
    /// A graph that arrived while a batch was running.
    pub staged: Option<G>,
    /// The tickets of the batch that is running, in the order of its jobs.
    pub running: Seq<u64>,
    /// Whether an inference has failed.
    pub failed: bool,
}

impl<G> ExecutorView<G> {
    /// An executor that has neither a graph nor a batch.
    pub open spec fn new(batch_size: nat, policy: BatchPolicy) -> Self {
        ExecutorView {
            batch_size,
            policy,
            graph: None,
            staged: None,
            running: Seq::empty(),
            failed: false,
        }
    }

    /// What holds of every state that an executor can reach.
    pub open spec fn wf(self) -> bool {
        &&& self.batch_size >= 1
        &&& self.running.len() <= self.batch_size
        &&& self.running.len() == 0 ==> self.staged is None
    }

    /// Whether the executor would form a batch if enough requests were pending.
    pub open spec fn ready(self, closed: bool) -> bool {
        !self.failed && self.running.len() == 0 && !closed && self.graph is Some
    }

    /// How many jobs the next batch takes from a channel with `pending`
    /// pending jobs; 0 where no batch is formed.
    pub open spec fn batch_target(self, closed: bool, pending: nat) -> nat {
        if !self.ready(closed) {
            0
        } else if pending >= self.batch_size {
            self.batch_size
        } else if self.policy == BatchPolicy::ServePartial {
            pending
        } else {
            0
        }
    }

    /// The state after a batch with these tickets was formed.
    pub open spec fn begin(self, tickets: Seq<u64>) -> Self {
        ExecutorView { running: tickets, ..self }
    }

    /// The state after a graph arrived. An idle executor takes it at once. A
    /// busy one keeps it for the next batch; the batch that is running keeps
    /// its graph.
    pub open spec fn install(self, graph: G) -> Self {
        if self.running.len() == 0 {
            ExecutorView { graph: Some(graph), ..self }
        } else {
            ExecutorView { staged: Some(graph), ..self }
        }
    }

    /// The state after the running batch was completed.
    pub open spec fn finish(self, failure: bool) -> Self {
        ExecutorView {
            graph: if self.staged is Some {
                self.staged
            } else {
                self.graph
            },
            staged: None,
            running: Seq::empty(),
            failed: self.failed || failure,
            ..self
        }
    }
}

/// An executor.
pub struct Executor<G> {
    batch_size: usize,
    policy: BatchPolicy,
    graph: Option<G>,
    staged: Option<G>,
    running: Vec<u64>,
    failed: bool,
}

impl<G> View for Executor<G> {
    type V = ExecutorView<G>;

    closed spec fn view(&self) -> ExecutorView<G> {
        ExecutorView {
            batch_size: self.batch_size as nat,
            policy: self.policy,
            graph: self.graph,
            staged: self.staged,
            running: self.running@,
            failed: self.failed,
        }
    }
}

impl<G> Executor<G> {
    /// Whether the executor is in a state that it can reach.
    pub open spec fn wf(&self) -> bool {
        self@.wf()
    }

    /// An executor for batches of `batch_size` requests. A batch size of 0 is
    /// refused.
    pub fn new(batch_size: usize, policy: BatchPolicy) -> (res: Result<Self, ConfigurationError>)
        ensures
            match res {
                Ok(executor) => batch_size >= 1 && executor.wf() && executor@ == ExecutorView::<
                    G,
                >::new(batch_size as nat, policy),
                Err(e) => batch_size == 0 && e == ConfigurationError::ZeroBatchSize,
            },
    {
        if batch_size == 0 {
            return Err(ConfigurationError::ZeroBatchSize);
        }
        Ok(
            Executor {
                batch_size,
                policy,
                graph: None,
                staged: None,
                running: Vec::new(),
                failed: false,
            },
        )
    }

    /// The number of requests that one accelerator pass accepts.
    pub fn batch_size(&self) -> (size: usize)
        ensures
            size == self@.batch_size,
    {
        self.batch_size
    }

    /// The graph that the running batch runs on, and on which the next batch
    /// will run unless another graph arrives before.
    pub fn graph(&self) -> (graph: Option<&G>)
        ensures
            match graph {
                Some(g) => self@.graph == Some(*g),
                None => self@.graph is None,
            },
    {
        self.graph.as_ref()
    }

    /// Whether a batch is running.
    pub fn is_busy(&self) -> (busy: bool)
        ensures
            busy == (self@.running.len() > 0),
    {
        self.running.len() > 0
    }

    /// Whether an inference has failed.
    pub fn has_failed(&self) -> (failed: bool)
        ensures
            failed == self@.failed,
    {
        self.failed
    }

    /// Takes a graph that arrived on the update channel.
    pub fn install_graph(&mut self, graph: G)
        requires
            old(self).wf(),
        ensures
            final(self).wf(),
            final(self)@ == old(self)@.install(graph),
    {
        if self.running.len() == 0 {
            self.graph = Some(graph);
        } else {
            self.staged = Some(graph);
        }
    }

    /// Decides on the next batch.
    ///
    /// An executor that has a graph, no running batch and no failure behind
    /// it forms a batch from an open channel: of exactly `batch_size` jobs
    /// where that many are pending, of all pending jobs where fewer are and
    /// the policy serves undersized batches. The jobs are the oldest pending
    /// ones, oldest first.
    pub fn next_batch<X, Y>(&mut self, channel: &mut JobChannel<X, Y>) -> (step: Step<X>)
        requires
            old(self).wf(),
            old(channel).wf(),
        ensures
            final(self).wf(),
            final(channel).wf(),
            ({
                let target = old(self)@.batch_target(
                    old(channel)@.closed,
                    old(channel)@.pending.len(),
                );
                &&& final(channel)@ == old(channel)@.hand_out(target)
                &&& final(channel)@.outstanding() == old(channel)@.outstanding()
                &&& target == 0 ==> final(channel)@ == old(channel)@
                &&& final(self)@ == if target >= 1 {
                    old(self)@.begin(ticket_seq(old(channel)@.pending.take(target as int)))
                } else {
                    old(self)@
                }
                &&& match step {
                    Step::Run(jobs) => target >= 1 && jobs@ == old(channel)@.pending.take(
                        target as int,
                    ),
                    Step::Wait => old(self)@.ready(old(channel)@.closed) && target == 0,
                    Step::AwaitGraph => !old(self)@.failed && old(self)@.running.len() == 0
                        && !old(channel)@.closed && old(self)@.graph is None,
                    Step::Busy => !old(self)@.failed && old(self)@.running.len() > 0,
                    Step::Shutdown => !old(self)@.failed && old(self)@.running.len() == 0 && old(
                        channel,
                    )@.closed,
                    Step::Failed => old(self)@.failed,
                }
            }),
    {
        let ghost before = channel@;
        proof {
            lemma_hand_out_none(before);
        }
        if self.failed {
            return Step::Failed;
        }
        if self.running.len() > 0 {
            return Step::Busy;
        }
        if channel.is_closed() {
            return Step::Shutdown;
        }
        if self.graph.is_none() {
            return Step::AwaitGraph;
        }
        let pending = channel.pending_len();
        if pending < self.batch_size && (pending == 0 || self.policy == BatchPolicy::WaitForFull) {
            return Step::Wait;
        }
        match channel.recv_batch(self.batch_size) {
            Drained::Batch(jobs) => {
                let mut tickets: Vec<u64> = Vec::new();
                let mut i: usize = 0;
                while i < jobs.len()
                    invariant
                        i <= jobs.len(),
                        tickets@ == ticket_seq(jobs@.take(i as int)),
                    decreases jobs.len() - i,
                {
                    tickets.push(jobs[i].ticket);
                    proof {
                        assert(tickets@ =~= ticket_seq(jobs@.take(i + 1)));
                    }
                    i = i + 1;
                }
                proof {
                    assert(jobs@.take(jobs.len() as int) =~= jobs@);
                }
                self.running = tickets;
                Step::Run(jobs)
            },
            Drained::Empty => Step::Wait,
            Drained::Closed => Step::Shutdown,
        }
    }

    /// Completes the running batch with the outputs of its pass.
    ///
    /// Output `i` is replied to job `i` of the batch. Where the pass failed,
    /// or did not give one output per job, every job of the batch is replied
    /// a failure, the executor stops for good, and the failure is returned.
    /// A graph that arrived while the batch was running becomes the
    /// executor's graph.
    pub fn complete<X, E>(
        &mut self,
        channel: &mut JobChannel<X, Result<E, InferenceFailure>>,
        outputs: Result<Vec<E>, InferenceFailure>,
    ) -> (res: Result<(), InferenceFailure>)
        requires
            old(self).wf(),
            old(channel).wf(),
        ensures
            final(self).wf(),
            final(channel).wf(),
            ({
                let n = old(self)@.running.len();
                let failure = batch_failed(n, outputs_view(outputs));
                &&& final(channel)@ == answer_all(
                    old(channel)@,
                    old(self)@.running,
                    batch_responses(n, outputs_view(outputs)),
                    n,
                )
                &&& final(self)@ == old(self)@.finish(failure)
                &&& res is Err <==> failure
            }),
    {
        let ghost before = channel@;
        let ghost tickets = self@.running;
        let ghost responses = batch_responses(tickets.len(), outputs_view(outputs));
        let n = self.running.len();
        let mut failure = true;
        match outputs {
            Ok(values) => {
                if values.len() == n {
                    failure = false;
                    let mut i: usize = 0;
                    for value in it: values
                        invariant
                            i == it.index(),
                            it.seq() == outputs_view(outputs)->Ok_0,
                            it.seq().len() == n,
                            n == self.running.len(),
                            self.running@ == tickets,
                            responses == batch_responses(tickets.len(), outputs_view(outputs)),
                            outputs_view(outputs) is Ok,
                            channel.wf(),
                            channel@ == answer_all(before, tickets, responses, i as nat),
                    {
                        let ticket = self.running[i];
                        let _ = channel.reply(ticket, Ok(value));
                        i = i + 1;
                    }
                }
            },
            Err(_) => {},
        }
        if failure {
            let mut i: usize = 0;
            while i < n
                invariant
                    i <= n,
                    n == self.running.len(),
                    self.running@ == tickets,
                    responses == Seq::new(
                        tickets.len(),
                        |k: int| Err::<E, InferenceFailure>(InferenceFailure),
                    ),
                    channel.wf(),
                    channel@ == answer_all(before, tickets, responses, i as nat),
                decreases n - i,
            {
                let ticket = self.running[i];
                let _ = channel.reply(ticket, Err(InferenceFailure));
                i = i + 1;
            }
            self.failed = true;
        }
        self.running = Vec::new();
        if self.staged.is_some() {
            self.graph = self.staged.take();
        }
        if failure {
            Err(InferenceFailure)
        } else {
            Ok(())
        }
    }
}

} // verus!
