//! What holds of a job channel, of its executors and of its generators over
//! whole runs.

use crate::executor::batch_failed;
use crate::executor::batch_responses;
use crate::executor::ExecutorView;
use crate::generator::GeneratorView;
use crate::job_channel::among;
use crate::job_channel::answer_all;
use crate::job_channel::lemma_answer_all;
use crate::job_channel::lemma_close_wf;
use crate::job_channel::lemma_enqueue_wf;
use crate::job_channel::lemma_hand_out_wf;
use crate::job_channel::lemma_pending_tickets;
use crate::job_channel::ticket_seq;
use crate::job_channel::tickets_of;
use crate::job_channel::ChannelView;
use crate::job_channel::Job;
use crate::protocol::BatchPolicy;
use crate::protocol::InferenceFailure;
use crate::protocol::StartupSettings;
use vstd::prelude::*;

verus! {

/// The channel after each of `requests` was submitted, in their order.
pub open spec fn submit_each<X, Y>(channel: ChannelView<X, Y>, requests: Seq<X>) -> ChannelView<
    X,
    Y,
>
    decreases requests.len(),
{
    if requests.len() == 0 {
        channel
    } else {
        submit_each(channel, requests.drop_last()).submit(requests.last())
    }
}

/// The responses of a server that replies `respond(request)` to each job.
pub open spec fn responses_to<X, Y>(jobs: Seq<Job<X>>, respond: spec_fn(X) -> Y) -> Seq<Y> {
    Seq::new(jobs.len(), |i: int| respond(jobs[i].request))
}

/// The channel after one round of service: a server asked for at most
/// `batch_size` jobs and replied `respond(request)` to each job it got.
pub open spec fn serve_batch<X, Y>(
    channel: ChannelView<X, Y>,
    batch_size: nat,
    respond: spec_fn(X) -> Y,
) -> ChannelView<X, Y> {
    let n = channel.batch_len(batch_size);
    let jobs = channel.pending.take(n as int);
    answer_all(channel.hand_out(n), ticket_seq(jobs), responses_to(jobs, respond), n)
}

/// The channel after `rounds` rounds of service.
pub open spec fn serve_rounds<X, Y>(
    channel: ChannelView<X, Y>,
    batch_size: nat,
    respond: spec_fn(X) -> Y,
    rounds: nat,
) -> ChannelView<X, Y>
    decreases rounds,
{
    if rounds == 0 {
        channel
    } else {
        serve_batch(
            serve_rounds(channel, batch_size, respond, (rounds - 1) as nat),
            batch_size,
            respond,
        )
    }
}

/// How many of `pending` jobs have been served after `rounds` rounds with
/// batches of `batch_size`.
pub open spec fn served_after(pending: nat, batch_size: nat, rounds: nat) -> nat
    decreases rounds,
{
    if rounds == 0 {
        0
    } else {
        let before = served_after(pending, batch_size, (rounds - 1) as nat);
        if before + batch_size <= pending {
            before + batch_size
        } else {
            pending
        }
    }
}

/// Submitting to a fresh channel no more requests than it admits queues them
/// all, each under the ticket of its place.
pub proof fn lemma_submit_each_fresh<X, Y>(capacity: nat, requests: Seq<X>)
    requires
        requests.len() <= capacity <= usize::MAX,
    ensures
        submit_each(ChannelView::<X, Y>::open(capacity), requests).wf(),
        submit_each(ChannelView::<X, Y>::open(capacity), requests) == (ChannelView::<X, Y> {
            issued: requests.len(),
            pending: Seq::new(
                requests.len(),
                |i: int| Job { ticket: i as u64, request: requests[i] },
            ),
            ..ChannelView::<X, Y>::open(capacity)
        }),
    decreases requests.len(),
{
    let fresh = ChannelView::<X, Y>::open(capacity);
    let goal = ChannelView::<X, Y> {
        issued: requests.len(),
        pending: Seq::new(requests.len(), |i: int| Job { ticket: i as u64, request: requests[i] }),
        ..fresh
    };
    if requests.len() == 0 {
        assert(goal.pending =~= fresh.pending);
    } else {
        let fewer = requests.drop_last();
        let before = submit_each(fresh, fewer);
        lemma_submit_each_fresh::<X, Y>(capacity, fewer);
        assert(before.can_admit());
        lemma_enqueue_wf(before, requests.last());
        assert(before.enqueue(requests.last()).pending =~= goal.pending);
    }
}

/// One round of service answers the oldest pending jobs, as many as a batch
/// holds, and touches nothing else.
pub proof fn lemma_serve_batch<X, Y>(
    s: ChannelView<X, Y>,
    batch_size: nat,
    respond: spec_fn(X) -> Y,
)
    requires
        s.wf(),
    ensures
        ({
            let n = s.batch_len(batch_size);
            let r = serve_batch(s, batch_size, respond);
            &&& r.wf()
            &&& r.capacity == s.capacity
            &&& r.closed == s.closed
            &&& r.issued == s.issued
            &&& r.cancelled == s.cancelled
            &&& r.in_flight == s.in_flight
            &&& r.pending == s.pending.skip(n as int)
            &&& forall|i: int|
                0 <= i < n ==> r.answered.contains_key((#[trigger] s.pending[i]).ticket)
                    && r.answered[s.pending[i].ticket] == respond(s.pending[i].request)
            &&& forall|t: u64|
                !(s.issued - s.pending.len() <= t < s.issued - s.pending.len() + n) ==> (
                #[trigger] r.answered.contains_key(t) <==> s.answered.contains_key(t))
            &&& forall|t: u64|
                !(s.issued - s.pending.len() <= t < s.issued - s.pending.len() + n)
                    && s.answered.contains_key(t) ==> #[trigger] r.answered[t] == s.answered[t]
        }),
{
    let n = s.batch_len(batch_size);
    let jobs = s.pending.take(n as int);
    let h = s.hand_out(n);
    let tickets = ticket_seq(jobs);
    let responses = responses_to(jobs, respond);
    let r = serve_batch(s, batch_size, respond);
    let base = s.issued - s.pending.len();
    lemma_hand_out_wf(s, n);
    assert forall|i: int| 0 <= i < n implies h.in_flight.contains(#[trigger] tickets[i]) by {
        assert(jobs[i].ticket == tickets[i]);
    }
    lemma_answer_all(h, tickets, responses, n);
    assert forall|t: u64| among(tickets, n, t) <==> base <= t < base + n by {
        if among(tickets, n, t) {
            let i = choose|i: int| 0 <= i < n && #[trigger] tickets[i] == t;
            assert(s.pending[i].ticket == t);
        }
        if base <= t < base + n {
            let i = t - base;
            assert(s.pending[i].ticket == t);
            assert(tickets[i] == t);
        }
    }
    assert forall|t: u64| tickets_of(jobs).contains(t) <==> base <= t < base + n by {
        if tickets_of(jobs).contains(t) {
            let i = choose|i: int| 0 <= i < jobs.len() && #[trigger] jobs[i].ticket == t;
            assert(s.pending[i].ticket == t);
        }
        if base <= t < base + n {
            let i = t - base;
            assert(jobs[i].ticket == t);
        }
    }
    assert(r.in_flight =~= s.in_flight);
    assert forall|t: u64| !(base <= t < base + n) implies (#[trigger] r.answered.contains_key(t)
        <==> s.answered.contains_key(t)) by {
        assert(!among(tickets, n, t));
    }
    assert forall|t: u64| !(base <= t < base + n) && s.answered.contains_key(t) implies #[trigger] r.answered[t]
        == s.answered[t] by {
        assert(!among(tickets, n, t));
    }
    assert forall|i: int| 0 <= i < n implies r.answered.contains_key(
        (#[trigger] s.pending[i]).ticket,
    ) && r.answered[s.pending[i].ticket] == respond(s.pending[i].request) by {
        assert(tickets[i] == s.pending[i].ticket);
        assert(responses[i] == respond(s.pending[i].request));
    }
}

/// Rounds of service on an open channel answer its pending jobs from the
/// oldest on, a batch in each round, and touch nothing else.
pub proof fn lemma_serve_rounds<X, Y>(
    s: ChannelView<X, Y>,
    batch_size: nat,
    respond: spec_fn(X) -> Y,
    rounds: nat,
)
    requires
        s.wf(),
        !s.closed,
    ensures
        ({
            let m = served_after(s.pending.len(), batch_size, rounds);
            let r = serve_rounds(s, batch_size, respond, rounds);
            &&& m <= s.pending.len()
            &&& batch_size >= 1 && rounds >= s.pending.len() ==> m == s.pending.len()
            &&& batch_size >= 1 && rounds <= s.pending.len() ==> m >= rounds
            &&& r.wf()
            &&& r.capacity == s.capacity
            &&& r.closed == s.closed
            &&& r.issued == s.issued
            &&& r.cancelled == s.cancelled
            &&& r.in_flight == s.in_flight
            &&& r.pending == s.pending.skip(m as int)
            &&& forall|i: int|
                0 <= i < m ==> r.answered.contains_key((#[trigger] s.pending[i]).ticket)
                    && r.answered[s.pending[i].ticket] == respond(s.pending[i].request)
            &&& forall|t: u64|
                !(s.issued - s.pending.len() <= t < s.issued - s.pending.len() + m) ==> (
                #[trigger] r.answered.contains_key(t) <==> s.answered.contains_key(t))
            &&& forall|t: u64|
                !(s.issued - s.pending.len() <= t < s.issued - s.pending.len() + m)
                    && s.answered.contains_key(t) ==> #[trigger] r.answered[t] == s.answered[t]
        }),
    decreases rounds,
{
    if rounds == 0 {
        assert(s.pending.skip(0) =~= s.pending);
    } else {
        let fewer = (rounds - 1) as nat;
        let k = served_after(s.pending.len(), batch_size, fewer);
        let m = served_after(s.pending.len(), batch_size, rounds);
        let p = serve_rounds(s, batch_size, respond, fewer);
        let r = serve_rounds(s, batch_size, respond, rounds);
        lemma_serve_rounds(s, batch_size, respond, fewer);
        lemma_serve_batch(p, batch_size, respond);
        let n = p.batch_len(batch_size);
        assert(p.pending.len() == s.pending.len() - k);
        assert(m == k + n);
        assert(r.pending =~= s.pending.skip(m as int));
        assert forall|i: int| 0 <= i < m implies r.answered.contains_key(
            (#[trigger] s.pending[i]).ticket,
        ) && r.answered[s.pending[i].ticket] == respond(s.pending[i].request) by {
            if i >= k {
                assert(p.pending[i - k] == s.pending[i]);
            }
        }
    }
}

/// Every job is answered, and with its own response.
///
/// Where no more requests are submitted to a fresh channel than it admits,
/// each is queued under the ticket of its place, and nothing is answered
/// before a server comes. A server that takes batches of at most `batch_size`
/// and replies `respond(request)` to each job leaves no job unanswered after
/// as many rounds as there are requests. Then the response to each request
/// is filed under its ticket, and no other response is filed.
pub proof fn law_every_job_answered<X, Y>(
    capacity: nat,
    requests: Seq<X>,
    batch_size: nat,
    respond: spec_fn(X) -> Y,
)
    requires
        requests.len() <= capacity <= usize::MAX,
        batch_size >= 1,
    ensures
        ({
            let submitted = submit_each(ChannelView::<X, Y>::open(capacity), requests);
            let served = serve_rounds(submitted, batch_size, respond, requests.len());
            &&& submitted.wf()
            &&& submitted.pending.len() == requests.len()
            &&& forall|i: int|
                0 <= i < requests.len() ==> #[trigger] submitted.pending[i] == (Job {
                    ticket: i as u64,
                    request: requests[i],
                })
            &&& submitted.answered == Map::<u64, Y>::empty()
            &&& served.wf()
            &&& served.outstanding() == 0
            &&& forall|t: u64|
                t < requests.len() ==> #[trigger] served.answered.contains_key(t)
            &&& forall|t: u64|
                t < requests.len() ==> #[trigger] served.answered[t] == respond(requests[t as int])
            &&& forall|t: u64| #[trigger] served.answered.contains_key(t) ==> t < requests.len()
        }),
{
    let submitted = submit_each(ChannelView::<X, Y>::open(capacity), requests);
    let served = serve_rounds(submitted, batch_size, respond, requests.len());
    lemma_submit_each_fresh::<X, Y>(capacity, requests);
    lemma_serve_rounds(submitted, batch_size, respond, requests.len());
    assert(served.pending =~= Seq::<Job<X>>::empty());
    assert forall|t: u64| t < requests.len() implies #[trigger] served.answered.contains_key(t) by {
        assert(submitted.pending[t as int].ticket == t);
    }
    assert forall|t: u64| t < requests.len() implies #[trigger] served.answered[t] == respond(
        requests[t as int],
    ) by {
        assert(submitted.pending[t as int].ticket == t);
    }
}

/// No response without its request, and none twice.
///
/// A reply is taken only under the ticket of a job that a server holds. Such
/// a ticket was handed out by a submission before, and nothing is filed
/// under it yet. A reply under any other ticket changes nothing: not one
/// under a ticket that no submission has handed out yet, not one for a job
/// that is still queued, and not a second one for a job that was answered,
/// be its response collected or not.
pub proof fn law_no_unmatched_response<X, Y>(
    s: ChannelView<X, Y>,
    ticket: u64,
    response: Y,
    second: Y,
)
    requires
        s.wf(),
    ensures
        s.in_flight.contains(ticket) ==> ticket < s.issued && !s.answered.contains_key(ticket)
            && !tickets_of(s.pending).contains(ticket),
        !s.in_flight.contains(ticket) ==> s.answer(ticket, response) == s,
        ticket >= s.issued ==> s.answer(ticket, response) == s,
        tickets_of(s.pending).contains(ticket) ==> s.answer(ticket, response) == s,
        s.answered.contains_key(ticket) ==> s.answer(ticket, response) == s,
        s.answer(ticket, response).answer(ticket, second) == s.answer(ticket, response),
        s.answered.contains_key(ticket) ==> s.forget(ticket).answer(ticket, second) == s.forget(
            ticket,
        ),
{
    lemma_pending_tickets(s, ticket);
}

/// A ticket is handed out once.
///
/// The ticket of a newly queued request is in use nowhere in the channel:
/// not for a queued job, not for one that a server holds, and not for a
/// response or a cancellation that waits to be collected.
pub proof fn law_tickets_are_fresh<X, Y>(s: ChannelView<X, Y>, request: X)
    requires
        s.wf(),
        s.can_admit(),
        s.issued < u64::MAX,
    ensures
        s.submit(request).pending.last() == (Job { ticket: s.issued as u64, request }),
        !s.is_waiting(s.issued as u64),
        !s.answered.contains_key(s.issued as u64),
        !s.cancelled.contains(s.issued as u64),
{
    lemma_pending_tickets(s, s.issued as u64);
}

/// Backpressure.
///
/// While as many jobs are unanswered as an open channel admits, a submission
/// is suspended: it changes nothing. Once one of these jobs is answered, a
/// submission is admitted.
pub proof fn law_backpressure<X, Y>(s: ChannelView<X, Y>, request: X, ticket: u64, response: Y)
    requires
        s.wf(),
        !s.closed,
        s.outstanding() == s.capacity,
    ensures
        !s.can_admit(),
        s.submit(request) == s,
        s.in_flight.contains(ticket) ==> s.answer(ticket, response).can_admit(),
        s.in_flight.contains(ticket) ==> s.answer(ticket, response).submit(request)
            == s.answer(ticket, response).enqueue(request),
{
}

/// Of more requests than a fresh channel admits, submitted at once, the
/// first ones are queued, as many as the channel admits, and every further
/// one is suspended.
pub proof fn law_capacity_bounds_admission<X, Y>(capacity: nat, requests: Seq<X>)
    requires
        capacity <= requests.len(),
        capacity <= usize::MAX,
    ensures
        submit_each(ChannelView::<X, Y>::open(capacity), requests) == submit_each(
            ChannelView::<X, Y>::open(capacity),
            requests.take(capacity as int),
        ),
        submit_each(ChannelView::<X, Y>::open(capacity), requests).outstanding() == capacity,
    decreases requests.len(),
{
    let fresh = ChannelView::<X, Y>::open(capacity);
    let first = requests.take(capacity as int);
    lemma_submit_each_fresh::<X, Y>(capacity, first);
    if requests.len() == capacity {
        assert(first =~= requests);
    } else {
        let fewer = requests.drop_last();
        law_capacity_bounds_admission::<X, Y>(capacity, fewer);
        assert(fewer.take(capacity as int) =~= first);
    }
}

/// Closing.
///
/// Once the server side is closed, every submission fails and changes
/// nothing. Every job that was unanswered at closing is cancelled, which its
/// client finds under its ticket; no job is left waiting. A response that was
/// filed before stays. And the channel stays closed whatever is done to it.
pub proof fn law_close_fails_all<X, Y>(
    s: ChannelView<X, Y>,
    request: X,
    ticket: u64,
    response: Y,
    n: nat,
)
    requires
        s.wf(),
    ensures
        s.close().wf(),
        s.close().closed,
        !s.close().can_admit(),
        s.close().submit(request) == s.close(),
        s.is_waiting(ticket) ==> s.close().cancelled.contains(ticket),
        !s.close().is_waiting(ticket),
        s.close().answered == s.answered,
        s.close().batch_len(n) == 0,
        s.close().hand_out(0).closed,
        s.close().answer(ticket, response) == s.close(),
        s.close().forget(ticket).closed,
        s.close().close() == s.close(),
{
    lemma_close_wf(s);
    lemma_close_wf(s.close());
    lemma_pending_tickets(s.close(), ticket);
}

/// Full batches, one at a time.
///
/// An executor that is free to form a batch, on a channel with at least
/// `batch_size` pending jobs, forms one of exactly `batch_size`, whatever
/// its policy: of the oldest pending jobs. While that batch runs the
/// executor forms no other, whatever is pending. Completing it answers each
/// of its jobs with its own response, so that none of them is with the
/// server any more.
pub proof fn law_full_batches_one_at_a_time<X, E, G>(
    e: ExecutorView<G>,
    c: ChannelView<X, Result<E, InferenceFailure>>,
    outputs: Result<Seq<E>, InferenceFailure>,
)
    requires
        e.wf(),
        c.wf(),
        e.ready(c.closed),
        c.pending.len() >= e.batch_size,
    ensures
        ({
            let size = e.batch_size;
            let tickets = ticket_seq(c.pending.take(size as int));
            let responses = batch_responses(size, outputs);
            let done = answer_all(c.hand_out(size), tickets, responses, size);
            &&& e.batch_target(c.closed, c.pending.len()) == size
            &&& e.begin(tickets).running.len() == size
            &&& forall|closed: bool, pending: nat| #[trigger]
                e.begin(tickets).batch_target(closed, pending) == 0
            &&& done.wf()
            &&& done.outstanding() + size == c.outstanding()
            &&& forall|i: int|
                0 <= i < size ==> done.answered.contains_key(#[trigger] tickets[i])
                    && done.answered[tickets[i]] == responses[i] && !done.in_flight.contains(
                    tickets[i],
                )
            &&& e.begin(tickets).finish(batch_failed(size, outputs)).running.len() == 0
        }),
{
    let size = e.batch_size;
    let jobs = c.pending.take(size as int);
    let tickets = ticket_seq(jobs);
    let responses = batch_responses(size, outputs);
    let formed = c.hand_out(size);
    lemma_hand_out_wf(c, size);
    assert forall|i: int| 0 <= i < size implies formed.in_flight.contains(#[trigger] tickets[i]) by {
        assert(jobs[i].ticket == tickets[i]);
    }
    assert forall|i: int, j: int| 0 <= i < j < size implies tickets[i] != tickets[j] by {
        assert(c.pending[i].ticket != c.pending[j].ticket);
    }
    lemma_answer_all(formed, tickets, responses, size);
    let done = answer_all(formed, tickets, responses, size);
    assert forall|i: int| 0 <= i < size implies !done.in_flight.contains(#[trigger] tickets[i]) by {
        assert(among(tickets, size, tickets[i]));
    }
}

/// What the two policies do with fewer pending jobs than a batch holds.
///
/// A free executor that serves undersized batches takes what any server
/// that asks for a batch is handed: at least one job wherever one is
/// pending, so that no job waits for others to arrive. One that waits for
/// full batches takes nothing until a whole batch is pending.
pub proof fn law_policies_on_few_jobs<X, Y, G>(e: ExecutorView<G>, c: ChannelView<X, Y>)
    requires
        e.wf(),
        e.ready(c.closed),
    ensures
        e.policy == BatchPolicy::ServePartial ==> e.batch_target(c.closed, c.pending.len())
            == c.batch_len(e.batch_size),
        e.policy == BatchPolicy::ServePartial && c.pending.len() >= 1 ==> e.batch_target(
            c.closed,
            c.pending.len(),
        ) >= 1,
        e.policy == BatchPolicy::WaitForFull && c.pending.len() < e.batch_size ==> e.batch_target(
            c.closed,
            c.pending.len(),
        ) == 0,
        BatchPolicy::chosen() == BatchPolicy::ServePartial,
{
}

/// A graph is swapped between batches, never under one.
///
/// An executor that runs no batch takes a new graph at once: its next batch
/// runs on it. An executor that runs a batch keeps that batch and its graph
/// as they are, and takes the new graph when the batch is completed: the
/// batch formed after that runs on it. At any time the executor's graph is
/// one whole graph: the one it had, or the newest that arrived.
pub proof fn law_graph_swapped_between_batches<G>(
    e: ExecutorView<G>,
    graph: G,
    newer: G,
    tickets: Seq<u64>,
    failure: bool,
)
    requires
        e.wf(),
    ensures
        e.install(graph).wf(),
        e.running.len() == 0 ==> e.install(graph).graph == Some(graph),
        e.running.len() == 0 ==> e.install(graph).begin(tickets).graph == Some(graph),
        e.running.len() > 0 ==> e.install(graph).graph == e.graph,
        e.running.len() > 0 ==> e.install(graph).running == e.running,
        e.running.len() > 0 ==> e.install(graph).finish(failure).graph == Some(graph),
        e.running.len() > 0 ==> e.install(graph).install(newer).finish(failure).graph == Some(
            newer,
        ),
        e.staged is None ==> e.finish(failure).graph == e.graph,
        e.begin(tickets).graph == e.graph,
{
}

/// The newest settings win, as a whole.
///
/// After a poll that gave an update, the generator's settings are that
/// update and nothing of what was there before. A poll that gave nothing
/// leaves them. Whether the generator waits for a response is not touched.
pub proof fn law_newest_settings_win<S>(g: GeneratorView<S>, older: S, newer: S)
    ensures
        g.adopt(Some(newer)).settings == Some(newer),
        g.adopt(Some(older)).adopt(Some(newer)).settings == Some(newer),
        g.adopt(Some(older)).adopt(None).settings == Some(older),
        g.adopt(None) == g,
        g.adopt(Some(newer)).awaiting == g.awaiting,
        g.adopt(Some(newer)).stopped == g.stopped,
{
}

/// One batch in reserve.
///
/// A device runs one batch more games than its job channel admits jobs.
/// While every executor holds a full batch, the generators of one more batch
/// are searching or have their next request in hand. A sizing without fault
/// admits at least one batch.
pub proof fn law_one_batch_in_reserve(startup: StartupSettings)
    ensures
        startup.spec_concurrent_games() == startup.spec_job_capacity() + startup.gpu_batch_size,
        startup.fault() is None ==> startup.spec_job_capacity() >= startup.gpu_batch_size >= 1,
        startup.fault() is None ==> startup.spec_concurrent_games() <= usize::MAX,
{
    assert((startup.gpu_threads_per_device + 1) * startup.gpu_batch_size
        == startup.gpu_threads_per_device * startup.gpu_batch_size + startup.gpu_batch_size)
        by (nonlinear_arith);
    if startup.fault() is None {
        assert(startup.gpu_threads_per_device * startup.gpu_batch_size >= startup.gpu_batch_size)
            by (nonlinear_arith)
            requires
                startup.gpu_threads_per_device >= 1,
        ;
    }
}

} // verus!
