//! The job channel: a bounded pairing of requests with responses.
//!
//! Clients submit requests and later collect exactly one response for each;
//! servers drain pending requests in batches and answer each one once. The
//! channel admits a request only while fewer jobs than its capacity are
//! unanswered. This module holds the channel's state and its transitions;
//! parking a caller that has to wait is left to the code that shares the
//! channel between threads.

use std::collections::HashMap;
use std::collections::HashSet;
use std::collections::VecDeque;
use vstd::prelude::*;

verus! {

/// A request together with the ticket under which its response is filed.
#[derive(Debug, PartialEq, Eq)]
pub struct Job<X> {
    pub ticket: u64,
    pub request: X,
}

/// What became of a submission.
#[derive(Debug, PartialEq, Eq)]
pub enum Submission<X> {
    /// The request was queued; its response will be filed under this ticket.
    Accepted(u64),
    /// As many jobs as the channel admits are unanswered. The request comes
    /// back and the caller has to wait for a reply before trying again.
    Suspended(X),
    /// The server side is closed for good. The request comes back.
    Closed(X),
}

/// What a server gets when it asks for a batch.
#[derive(Debug, PartialEq, Eq)]
pub enum Drained<X> {
    /// The oldest pending jobs, oldest first. Never empty.
    Batch(Vec<Job<X>>),
    /// Nothing can be handed out now; the caller has to wait.
    Empty,
    /// The channel is closed.
    Closed,
}

/// What a client finds under its ticket.
#[derive(Debug, PartialEq, Eq)]
pub enum Delivery<Y> {
    /// The response. The ticket is used up.
    Answered(Y),
    /// The channel was closed before the job was answered. The ticket is used up.
    Closed,
    /// The job is queued or with a server.
    Waiting,
    /// No job is filed under the ticket: it was never handed out, or its
    /// outcome was collected before.
    Unknown,
}

/// The tickets of a sequence of jobs.
pub open spec fn tickets_of<X>(jobs: Seq<Job<X>>) -> Set<u64> {
    Set::new(|t: u64| exists|i: int| 0 <= i < jobs.len() && #[trigger] jobs[i].ticket == t)
}

/// The tickets of a sequence of jobs, in the jobs' order.
pub open spec fn ticket_seq<X>(jobs: Seq<Job<X>>) -> Seq<u64> {
    Seq::new(jobs.len(), |i: int| jobs[i].ticket)
}

/// The state of a job channel.
pub struct ChannelView<X, Y> {
    /// How many unanswered jobs the channel admits.
    pub capacity: nat,
    /// Whether the server side is closed.
    pub closed: bool,
    /// How many tickets have been handed out; they are `0 .. issued`.
    pub issued: nat,
    /// Jobs that no server has taken yet, oldest first.
    pub pending: Seq<Job<X>>,
    /// Tickets of the jobs that a server has taken and not answered.
    pub in_flight: Set<u64>,
    /// Responses that wait to be collected.
    pub answered: Map<u64, Y>,
    /// Tickets of jobs that were unanswered at closing and whose client has
    /// not been told yet.
    pub cancelled: Set<u64>,
}

impl<X, Y> ChannelView<X, Y> {
    /// A fresh channel.
    pub open spec fn open(capacity: nat) -> Self {
        ChannelView {
            capacity,
            closed: false,
            issued: 0,
            pending: Seq::empty(),
            in_flight: Set::empty(),
            answered: Map::empty(),
            cancelled: Set::empty(),
        }
    }

    /// The number of jobs submitted and not answered.
    pub open spec fn outstanding(self) -> nat {
        self.pending.len() + self.in_flight.len()
    }

    /// Whether a submission is admitted.
    pub open spec fn can_admit(self) -> bool {
        !self.closed && self.outstanding() < self.capacity
    }

    /// Whether the job under `ticket` is queued or with a server.
    pub open spec fn is_waiting(self, ticket: u64) -> bool {
        tickets_of(self.pending).contains(ticket) || self.in_flight.contains(ticket)
    }

    /// The state after `request` was queued under the next ticket.
    pub open spec fn enqueue(self, request: X) -> Self {
        ChannelView {
            issued: self.issued + 1,
            pending: self.pending.push(Job { ticket: self.issued as u64, request }),
            ..self
        }
    }

    /// The state after a submission: the request is queued if it is admitted,
    /// and nothing changes if it is not.
    pub open spec fn submit(self, request: X) -> Self {
        if self.can_admit() {
            self.enqueue(request)
        } else {
            self
        }
    }

    /// How many jobs a server that asks for at most `max_n` is handed.
    pub open spec fn batch_len(self, max_n: nat) -> nat {
        if self.closed {
            0
        } else if max_n <= self.pending.len() {
            max_n
        } else {
            self.pending.len()
        }
    }

    /// The state after the `n` oldest pending jobs went to a server.
    pub open spec fn hand_out(self, n: nat) -> Self {
        ChannelView {
            pending: self.pending.skip(n as int),
            in_flight: self.in_flight.union(tickets_of(self.pending.take(n as int))),
            ..self
        }
    }

    /// The state after a server replied `response` under `ticket`. A reply
    /// under a ticket that is not with a server changes nothing.
    pub open spec fn answer(self, ticket: u64, response: Y) -> Self {
        if self.in_flight.contains(ticket) {
            ChannelView {
                in_flight: self.in_flight.remove(ticket),
                answered: self.answered.insert(ticket, response),
                ..self
            }
        } else {
            self
        }
    }

    /// The state after the server side was closed: every unanswered job is
    /// cancelled.
    pub open spec fn close(self) -> Self {
        ChannelView {
            closed: true,
            pending: Seq::empty(),
            in_flight: Set::empty(),
            cancelled: self.cancelled.union(self.in_flight).union(tickets_of(self.pending)),
            ..self
        }
    }

    /// The state after a client collected what was filed under `ticket`.
    pub open spec fn forget(self, ticket: u64) -> Self {
        ChannelView {
            answered: self.answered.remove(ticket),
            cancelled: self.cancelled.remove(ticket),
            ..self
        }
    }

    /// What holds of every state that a channel can reach.
    ///
    /// Never more jobs than the capacity are unanswered. Tickets are handed
    /// out in order, so the pending jobs carry the newest tickets, in order.
    /// No ticket is in two places at once, and none is in use that was not
    /// handed out.
    pub open spec fn wf(self) -> bool {
        &&& self.issued <= u64::MAX
        &&& self.in_flight.finite()
        &&& self.cancelled.finite()
        &&& self.answered.dom().finite()
        &&& self.outstanding() <= self.capacity
        &&& self.pending.len() <= self.issued
        &&& forall|i: int|
            0 <= i < self.pending.len() ==> (#[trigger] self.pending[i]).ticket == self.issued
                - self.pending.len() + i
        &&& forall|t: u64| #[trigger]
            self.in_flight.contains(t) ==> t < self.issued - self.pending.len()
                && !self.answered.contains_key(t) && !self.cancelled.contains(t)
        &&& forall|t: u64| #[trigger]
            self.answered.contains_key(t) ==> t < self.issued - self.pending.len()
                && !self.cancelled.contains(t)
        &&& forall|t: u64| #[trigger] self.cancelled.contains(t) ==> t < self.issued - self.pending.len()
        &&& self.closed ==> self.pending.len() == 0 && self.in_flight =~= Set::<u64>::empty()
        &&& !self.closed ==> self.cancelled =~= Set::<u64>::empty()
    }
}

/// The channel after `responses[i]` was replied under `tickets[i]`, for each
/// `i` below `upto` in turn.
pub open spec fn answer_all<X, Y>(
    channel: ChannelView<X, Y>,
    tickets: Seq<u64>,
    responses: Seq<Y>,
    upto: nat,
) -> ChannelView<X, Y>
    decreases upto,
{
    if upto == 0 {
        channel
    } else {
        answer_all(channel, tickets, responses, (upto - 1) as nat).answer(
            tickets[upto - 1],
            responses[upto - 1],
        )
    }
}

/// A job channel.
pub struct JobChannel<X, Y> {
    capacity: usize,
    closed: bool,
    issued: u64,
    pending: VecDeque<Job<X>>,
    in_flight: HashSet<u64>,
    answered: HashMap<u64, Y>,
    cancelled: HashSet<u64>,
}

impl<X, Y> View for JobChannel<X, Y> {
    type V = ChannelView<X, Y>;

    closed spec fn view(&self) -> ChannelView<X, Y> {
        ChannelView {
            capacity: self.capacity as nat,
            closed: self.closed,
            issued: self.issued as nat,
            pending: self.pending@,
            in_flight: self.in_flight@,
            answered: self.answered@,
            cancelled: self.cancelled@,
        }
    }
}

impl<X, Y> JobChannel<X, Y> {
    /// Whether the channel is in a state that it can reach.
    pub open spec fn wf(&self) -> bool {
        self@.wf()
    }

    /// Opens a channel that admits `capacity` unanswered jobs.
    pub fn open(capacity: usize) -> (channel: Self)
        ensures
            channel.wf(),
            channel@ == ChannelView::<X, Y>::open(capacity as nat),
    {
        JobChannel {
            capacity,
            closed: false,
            issued: 0,
            pending: VecDeque::new(),
            in_flight: HashSet::new(),
            answered: HashMap::new(),
            cancelled: HashSet::new(),
        }
    }

    /// The number of unanswered jobs that the channel admits.
    pub fn capacity(&self) -> (capacity: usize)
        ensures
            capacity == self@.capacity,
    {
        self.capacity
    }

    /// Whether the server side is closed.
    pub fn is_closed(&self) -> (closed: bool)
        ensures
            closed == self@.closed,
    {
        self.closed
    }

    /// The number of tickets handed out so far.
    pub fn issued(&self) -> (issued: u64)
        ensures
            issued == self@.issued,
    {
        self.issued
    }

    /// The number of jobs that no server has taken yet.
    pub fn pending_len(&self) -> (len: usize)
        ensures
            len == self@.pending.len(),
    {
        self.pending.len()
    }

    /// The number of jobs submitted and not answered.
    pub fn outstanding(&self) -> (count: usize)
        requires
            self.wf(),
        ensures
            count == self@.outstanding(),
    {
        self.pending.len() + self.in_flight.len()
    }

    /// Submits a request.
    ///
    /// The request is queued under the next ticket while the channel is open
    /// and fewer jobs than its capacity are unanswered. Otherwise it comes
    /// back, and the channel is left as it was.
    pub fn submit(&mut self, request: X) -> (res: Submission<X>)
        requires
            old(self).wf(),
            old(self)@.issued < u64::MAX,
        ensures
            final(self).wf(),
            final(self)@ == old(self)@.submit(request),
            match res {
                Submission::Accepted(ticket) => old(self)@.can_admit() && ticket == old(self)@.issued,
                Submission::Suspended(back) => !old(self)@.closed && !old(self)@.can_admit() && back
                    == request,
                Submission::Closed(back) => old(self)@.closed && back == request,
            },
    {
        if self.closed {
            return Submission::Closed(request);
        }
        if self.pending.len() + self.in_flight.len() >= self.capacity {
            return Submission::Suspended(request);
        }
        let ticket = self.issued;
        self.issued = ticket + 1;
        self.pending.push_back(Job { ticket, request });
        proof {
            lemma_enqueue_wf(old(self)@, request);
        }
        Submission::Accepted(ticket)
    }

    /// Hands the oldest pending jobs to a server, at most `max_n` of them.
    ///
    /// An open channel with a pending job gives a batch, unless `max_n` is 0.
    /// The jobs of the batch are with the server from then on, until it
    /// replies.
    pub fn recv_batch(&mut self, max_n: usize) -> (res: Drained<X>)
        requires
            old(self).wf(),
        ensures
            final(self).wf(),
            final(self)@ == old(self)@.hand_out(old(self)@.batch_len(max_n as nat)),
            final(self)@.outstanding() == old(self)@.outstanding(),
            old(self)@.batch_len(max_n as nat) == 0 ==> final(self)@ == old(self)@,
            match res {
                Drained::Batch(jobs) => old(self)@.batch_len(max_n as nat) >= 1 && jobs@ == old(
                    self,
                )@.pending.take(old(self)@.batch_len(max_n as nat) as int),
                Drained::Empty => !old(self)@.closed && old(self)@.batch_len(max_n as nat) == 0,
                Drained::Closed => old(self)@.closed,
            },
    {
        let ghost before = self@;
        proof {
            lemma_hand_out_none(before);
            lemma_hand_out_wf(before, before.batch_len(max_n as nat));
        }
        if self.closed {
            return Drained::Closed;
        }
        let mut jobs: Vec<Job<X>> = Vec::new();
        while jobs.len() < max_n && self.pending.len() > 0
            invariant
                before.wf(),
                !before.closed,
                self.wf(),
                jobs@.len() <= max_n,
                jobs@.len() <= before.pending.len(),
                jobs@ == before.pending.take(jobs@.len() as int),
                self@ == before.hand_out(jobs@.len()),
            decreases self.pending.len(),
        {
            let ghost state = self@;
            let ghost taken = jobs@.len();
            let job = self.pending.pop_front().unwrap();
            self.in_flight.insert(job.ticket);
            jobs.push(job);
            proof {
                lemma_hand_out_one(state);
                lemma_hand_out_more(before, taken);
                assert(self@ == state.hand_out(1));
                assert(jobs@ == before.pending.take(taken as int + 1));
            }
        }
        if jobs.len() == 0 {
            Drained::Empty
        } else {
            Drained::Batch(jobs)
        }
    }

    /// Files a server's response under `ticket`.
    ///
    /// The reply is taken if the job under `ticket` is with a server. Under
    /// any other ticket the response comes back and nothing changes: no
    /// response is filed for a job that was not submitted, was not handed
    /// out, was answered before, or was cancelled by closing.
    pub fn reply(&mut self, ticket: u64, response: Y) -> (res: Result<(), Y>)
        requires
            old(self).wf(),
        ensures
            final(self).wf(),
            final(self)@ == old(self)@.answer(ticket, response),
            res is Ok ==> final(self)@.outstanding() + 1 == old(self)@.outstanding(),
            match res {
                Ok(()) => old(self)@.in_flight.contains(ticket),
                Err(back) => !old(self)@.in_flight.contains(ticket) && back == response,
            },
    {
        let ghost before = self@;
        proof {
            lemma_answer_wf(before, ticket, response);
        }
        if self.in_flight.remove(&ticket) {
            self.answered.insert(ticket, response);
            Ok(())
        } else {
            assert(self.in_flight@ =~= before.in_flight);
            Err(response)
        }
    }

    /// Collects what is filed under `ticket`.
    ///
    /// A response or a cancellation is handed over once; after that the
    /// ticket is unknown.
    pub fn collect(&mut self, ticket: u64) -> (res: Delivery<Y>)
        requires
            old(self).wf(),
        ensures
            final(self).wf(),
            final(self)@ == old(self)@.forget(ticket),
            match res {
                Delivery::Answered(response) => old(self)@.answered.contains_key(ticket)
                    && response == old(self)@.answered[ticket],
                Delivery::Closed => old(self)@.cancelled.contains(ticket),
                Delivery::Waiting => old(self)@.is_waiting(ticket),
                Delivery::Unknown => !old(self)@.answered.contains_key(ticket) && !old(
                    self,
                )@.cancelled.contains(ticket) && !old(self)@.is_waiting(ticket),
            },
    {
        let ghost before = self@;
        proof {
            lemma_forget_wf(before, ticket);
            lemma_pending_tickets(before, ticket);
        }
        match self.answered.remove(&ticket) {
            Some(response) => {
                assert(self.cancelled@ =~= before.cancelled.remove(ticket));
                return Delivery::Answered(response);
            },
            None => {},
        }
        assert(self.answered@ =~= before.answered);
        if self.cancelled.remove(&ticket) {
            return Delivery::Closed;
        }
        assert(self.cancelled@ =~= before.cancelled);
        if self.in_flight.contains(&ticket) {
            return Delivery::Waiting;
        }
        if ticket < self.issued && self.issued - ticket <= self.pending.len() as u64 {
            Delivery::Waiting
        } else {
            Delivery::Unknown
        }
    }

    /// Closes the server side for good.
    ///
    /// Every job that is unanswered is cancelled: its client finds the
    /// cancellation under its ticket. No request is admitted afterwards.
    pub fn close(&mut self)
        requires
            old(self).wf(),
        ensures
            final(self).wf(),
            final(self)@ == old(self)@.close(),
    {
        let ghost before = self@;
        proof {
            lemma_close_wf(before);
            lemma_tickets_of_none::<X>();
        }
        if self.closed {
            return ;
        }
        self.closed = true;
        std::mem::swap(&mut self.in_flight, &mut self.cancelled);
        let ghost mut done: int = 0;
        while self.pending.len() > 0
            invariant
                before.wf(),
                !before.closed,
                0 <= done <= before.pending.len(),
                self.closed,
                self.capacity == before.capacity,
                self.issued == before.issued,
                self.answered@ == before.answered,
                self.in_flight@ == Set::<u64>::empty(),
                self.pending@ == before.pending.skip(done),
                self.cancelled@ == before.in_flight.union(tickets_of(before.pending.take(done))),
            decreases self.pending.len(),
        {
            let job = self.pending.pop_front().unwrap();
            self.cancelled.insert(job.ticket);
            proof {
                lemma_tickets_of_take(before.pending, done);
                done = done + 1;
            }
        }
        proof {
            assert(before.pending.take(done) =~= before.pending);
            assert(self.pending@ =~= Seq::<Job<X>>::empty());
            assert(before.cancelled.union(before.in_flight) =~= before.in_flight);
        }
    }
}

/// Queueing an admitted request keeps a channel in a state that it can reach.
pub proof fn lemma_enqueue_wf<X, Y>(s: ChannelView<X, Y>, request: X)
    requires
        s.wf(),
        s.can_admit(),
        s.issued < u64::MAX,
    ensures
        s.enqueue(request).wf(),
{
    let n = s.enqueue(request);
    assert forall|i: int| 0 <= i < n.pending.len() implies (#[trigger] n.pending[i]).ticket
        == n.issued - n.pending.len() + i by {
        if i < s.pending.len() {
            assert(n.pending[i] == s.pending[i]);
        }
    }
}

/// No job has a ticket where there is no job.
pub proof fn lemma_tickets_of_none<X>()
    ensures
        tickets_of(Seq::<Job<X>>::empty()) == Set::<u64>::empty(),
{
    assert(tickets_of(Seq::<Job<X>>::empty()) =~= Set::<u64>::empty());
}

/// The tickets of the first `n + 1` jobs are those of the first `n` and that
/// of the next job.
pub proof fn lemma_tickets_of_take<X>(jobs: Seq<Job<X>>, n: int)
    requires
        0 <= n < jobs.len(),
    ensures
        tickets_of(jobs.take(n + 1)) == tickets_of(jobs.take(n)).insert(jobs[n].ticket),
{
    let more = jobs.take(n + 1);
    let fewer = jobs.take(n);
    assert forall|t: u64| tickets_of(more).contains(t) implies tickets_of(fewer).insert(
        jobs[n].ticket,
    ).contains(t) by {
        let i = choose|i: int| 0 <= i < more.len() && #[trigger] more[i].ticket == t;
        if i < n {
            assert(fewer[i].ticket == t);
        }
    }
    assert forall|t: u64| tickets_of(fewer).insert(jobs[n].ticket).contains(t) implies tickets_of(
        more,
    ).contains(t) by {
        if t == jobs[n].ticket {
            assert(more[n].ticket == t);
        } else {
            let i = choose|i: int| 0 <= i < fewer.len() && #[trigger] fewer[i].ticket == t;
            assert(more[i].ticket == t);
        }
    }
    assert(tickets_of(more) =~= tickets_of(fewer).insert(jobs[n].ticket));
}

/// The tickets of a channel's pending jobs are the newest ones.
pub proof fn lemma_pending_tickets<X, Y>(s: ChannelView<X, Y>, ticket: u64)
    requires
        s.wf(),
    ensures
        tickets_of(s.pending).contains(ticket) <==> s.issued - s.pending.len() <= ticket < s.issued,
{
    if s.issued - s.pending.len() <= ticket < s.issued {
        let i = ticket - (s.issued - s.pending.len());
        assert(s.pending[i].ticket == ticket);
    }
}

/// Handing out no job changes nothing.
pub proof fn lemma_hand_out_none<X, Y>(s: ChannelView<X, Y>)
    ensures
        s.hand_out(0) == s,
{
    assert(s.pending.skip(0) =~= s.pending);
    assert(tickets_of(s.pending.take(0)) =~= Set::<u64>::empty());
    assert(s.hand_out(0).in_flight =~= s.in_flight);
}

/// Handing out the oldest pending job keeps a channel in a state that it can
/// reach, and leaves as many jobs unanswered as before.
pub proof fn lemma_hand_out_one<X, Y>(s: ChannelView<X, Y>)
    requires
        s.wf(),
        s.pending.len() >= 1,
    ensures
        s.hand_out(1).wf(),
        s.hand_out(1).outstanding() == s.outstanding(),
        s.hand_out(1).pending == s.pending.drop_first(),
        s.hand_out(1).in_flight == s.in_flight.insert(s.pending[0].ticket),
{
    let n = s.hand_out(1);
    lemma_tickets_of_none::<X>();
    lemma_tickets_of_take(s.pending, 0);
    assert(s.pending.take(0) =~= Seq::<Job<X>>::empty());
    assert(n.in_flight =~= s.in_flight.insert(s.pending[0].ticket));
    assert(n.pending =~= s.pending.drop_first());
    assert(!s.in_flight.contains(s.pending[0].ticket));
    assert forall|i: int| 0 <= i < n.pending.len() implies (#[trigger] n.pending[i]).ticket
        == n.issued - n.pending.len() + i by {
        assert(n.pending[i] == s.pending[i + 1]);
    }
}

/// Handing out `n` jobs and then one more is handing out `n + 1`.
pub proof fn lemma_hand_out_more<X, Y>(s: ChannelView<X, Y>, n: nat)
    requires
        n < s.pending.len(),
    ensures
        s.hand_out(n).hand_out(1) == s.hand_out(n + 1),
        s.hand_out(n).pending.len() >= 1,
        s.pending.take(n as int + 1) == s.pending.take(n as int).push(s.hand_out(n).pending[0]),
{
    let a = s.hand_out(n);
    let b = a.hand_out(1);
    let c = s.hand_out(n + 1);
    lemma_tickets_of_take(s.pending, n as int);
    lemma_tickets_of_take(a.pending, 0);
    lemma_tickets_of_none::<X>();
    assert(a.pending.take(0) =~= Seq::<Job<X>>::empty());
    assert(a.pending[0] == s.pending[n as int]);
    assert(b.pending =~= c.pending);
    assert(b.in_flight =~= c.in_flight);
    assert(s.pending.take(n as int + 1) =~= s.pending.take(n as int).push(a.pending[0]));
}

/// Handing out pending jobs keeps a channel in a state that it can reach, and
/// leaves as many jobs unanswered as before.
pub proof fn lemma_hand_out_wf<X, Y>(s: ChannelView<X, Y>, n: nat)
    requires
        s.wf(),
        n <= s.pending.len(),
    ensures
        s.hand_out(n).wf(),
        s.hand_out(n).outstanding() == s.outstanding(),
    decreases n,
{
    if n == 0 {
        lemma_hand_out_none(s);
    } else {
        let fewer = (n - 1) as nat;
        lemma_hand_out_wf(s, fewer);
        lemma_hand_out_more(s, fewer);
        lemma_hand_out_one(s.hand_out(fewer));
    }
}

/// A reply keeps a channel in a state that it can reach. One that is taken
/// leaves one job fewer unanswered.
pub proof fn lemma_answer_wf<X, Y>(s: ChannelView<X, Y>, ticket: u64, response: Y)
    requires
        s.wf(),
    ensures
        s.answer(ticket, response).wf(),
        s.in_flight.contains(ticket) ==> s.answer(ticket, response).outstanding() + 1
            == s.outstanding(),
{
}

/// Closing keeps a channel in a state that it can reach.
pub proof fn lemma_close_wf<X, Y>(s: ChannelView<X, Y>)
    requires
        s.wf(),
    ensures
        s.close().wf(),
        s.closed ==> s.close() == s,
{
    lemma_tickets_finite(s.pending);
    assert forall|t: u64| #[trigger] s.close().cancelled.contains(t) implies t < s.issued by {
        lemma_pending_tickets(s, t);
    }
    assert forall|t: u64| #[trigger] s.close().answered.contains_key(t) implies !s.close().cancelled.contains(t) by {
        lemma_pending_tickets(s, t);
    }
    if s.closed {
        lemma_tickets_of_none::<X>();
        assert(s.pending =~= Seq::<Job<X>>::empty());
        assert(s.close().cancelled =~= s.cancelled);
    }
}

/// Finitely many tickets belong to a sequence of jobs.
pub proof fn lemma_tickets_finite<X>(jobs: Seq<Job<X>>)
    ensures
        tickets_of(jobs).finite(),
    decreases jobs.len(),
{
    if jobs.len() == 0 {
        assert(tickets_of(jobs) =~= Set::<u64>::empty());
    } else {
        let n = jobs.len() - 1;
        lemma_tickets_finite(jobs.take(n));
        lemma_tickets_of_take(jobs, n);
        assert(jobs.take(n + 1) =~= jobs);
    }
}

/// Collecting keeps a channel in a state that it can reach, and changes
/// nothing where nothing is filed under the ticket.
pub proof fn lemma_forget_wf<X, Y>(s: ChannelView<X, Y>, ticket: u64)
    requires
        s.wf(),
    ensures
        s.forget(ticket).wf(),
        !s.answered.contains_key(ticket) && !s.cancelled.contains(ticket) ==> s.forget(ticket)
            == s,
{
    if !s.answered.contains_key(ticket) && !s.cancelled.contains(ticket) {
        assert(s.forget(ticket).answered =~= s.answered);
        assert(s.forget(ticket).cancelled =~= s.cancelled);
    }
}

/// Whether `ticket` is one of the first `upto` of `tickets`.
pub open spec fn among(tickets: Seq<u64>, upto: nat, ticket: u64) -> bool {
    exists|i: int| 0 <= i < upto && #[trigger] tickets[i] == ticket
}

/// Replying to a batch whose jobs are all with a server files each response
/// under its ticket, takes those jobs from the server's hands, and touches
/// nothing else.
pub proof fn lemma_answer_all<X, Y>(
    s: ChannelView<X, Y>,
    tickets: Seq<u64>,
    responses: Seq<Y>,
    upto: nat,
)
    requires
        s.wf(),
        upto <= tickets.len(),
        upto <= responses.len(),
        forall|i: int, j: int| 0 <= i < j < upto ==> tickets[i] != tickets[j],
        forall|i: int| 0 <= i < upto ==> s.in_flight.contains(#[trigger] tickets[i]),
    ensures
        ({
            let r = answer_all(s, tickets, responses, upto);
            &&& r.wf()
            &&& r.capacity == s.capacity
            &&& r.closed == s.closed
            &&& r.issued == s.issued
            &&& r.pending == s.pending
            &&& r.cancelled == s.cancelled
            &&& r.outstanding() + upto == s.outstanding()
            &&& forall|t: u64| #[trigger]
                r.in_flight.contains(t) <==> s.in_flight.contains(t) && !among(tickets, upto, t)
            &&& forall|i: int|
                0 <= i < upto ==> r.answered.contains_key(#[trigger] tickets[i])
                    && r.answered[tickets[i]] == responses[i]
            &&& forall|t: u64|
                !among(tickets, upto, t) ==> (#[trigger] r.answered.contains_key(t)
                    <==> s.answered.contains_key(t))
            &&& forall|t: u64|
                !among(tickets, upto, t) && s.answered.contains_key(t) ==> #[trigger] r.answered[t]
                    == s.answered[t]
        }),
    decreases upto,
{
    if upto > 0 {
        let fewer = (upto - 1) as nat;
        let p = answer_all(s, tickets, responses, fewer);
        let r = answer_all(s, tickets, responses, upto);
        let ticket = tickets[upto - 1];
        lemma_answer_all(s, tickets, responses, fewer);
        assert(!among(tickets, fewer, ticket));
        assert(p.in_flight.contains(ticket));
        lemma_answer_wf(p, ticket, responses[upto - 1]);
        assert forall|t: u64| among(tickets, upto, t) <==> among(tickets, fewer, t) || t
            == ticket by {
            if among(tickets, upto, t) {
                let i = choose|i: int| 0 <= i < upto && #[trigger] tickets[i] == t;
                if i < fewer {
                    assert(among(tickets, fewer, t));
                }
            }
            if among(tickets, fewer, t) {
                let i = choose|i: int| 0 <= i < fewer && #[trigger] tickets[i] == t;
                assert(0 <= i < upto && tickets[i] == t);
            }
            if t == ticket {
                assert(tickets[upto - 1] == t);
            }
        }
        assert forall|i: int| 0 <= i < upto implies r.answered.contains_key(#[trigger] tickets[i])
            && r.answered[tickets[i]] == responses[i] by {
            if i < fewer {
                assert(tickets[i] != ticket);
            }
        }
    }
}

} // verus!
