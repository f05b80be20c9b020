//! The decisions of a generator: which settings its search runs on, and
//! where it stands between submitting a request and getting the response.
//!
//! A generator drives one game search. Whenever the search needs a position
//! evaluated, the generator submits a request to the job channel and is
//! suspended until the response is there. The search itself, and parking the
//! task while it is suspended, are the caller's part.

use crate::job_channel::Delivery;
use crate::job_channel::JobChannel;
use crate::job_channel::Submission;
use vstd::prelude::*;

verus! {

/// What became of a generator's request.
#[derive(Debug, PartialEq, Eq)]
pub enum Requested<X> {
    /// The request is queued. The generator is suspended until it is answered.
    Queued,
    /// The channel admits no request now. The request comes back; it is to be
    /// made again after a reply on the channel.
    Full(X),
    /// The channel is closed. The request comes back and the generator has
    /// stopped.
    Closed(X),
    /// The generator is suspended or has stopped, so no request is due. The
    /// request comes back.
    Refused(X),
}

/// What a suspended generator finds when it looks for its response.
#[derive(Debug, PartialEq, Eq)]
pub enum Resumed<Y> {
    /// The response. The generator is no longer suspended.
    Response(Y),
    /// The job is not answered yet. The generator stays suspended.
    Pending,
    /// The channel was closed before the job was answered. The generator has
    /// stopped.
    Closed,
    /// The channel holds nothing under the generator's ticket. The generator
    /// has stopped.
    Lost,
    /// The generator is not suspended.
    Idle,
}

/// The state of a generator.
pub struct GeneratorView<S> {
    /// The generator's number on its device.
    pub id: nat,
    /// The settings that the search runs on, once some have arrived.
    pub settings: Option<S>,
    /// The ticket of the job whose response the generator waits for.
    pub awaiting: Option<u64>,
    /// Whether the generator has stopped for good.
    pub stopped: bool,
}

impl<S> GeneratorView<S> {
    /// A generator that has neither settings nor a job.
    pub open spec fn new(id: nat) -> Self {
        GeneratorView { id, settings: None, awaiting: None, stopped: false }
    }

    /// Whether a request is due: the generator runs and is not suspended.
    pub open spec fn searching(self) -> bool {
        !self.stopped && self.awaiting is None
    }

    /// The state after the settings slot was polled: an update replaces the
    /// settings as a whole, and without one they stay.
    pub open spec fn adopt(self, polled: Option<S>) -> Self {
        match polled {
            Some(update) => GeneratorView { settings: Some(update), ..self },
            None => self,
        }
    }

    /// The state after a request was made on a channel that was closed or
    /// not, and that would file an admitted request under `ticket`.
    pub open spec fn request(self, closed: bool, admitted: bool, ticket: u64) -> Self {
        if !self.searching() {
            self
        } else if closed {
            GeneratorView { stopped: true, ..self }
        } else if admitted {
            GeneratorView { awaiting: Some(ticket), ..self }
        } else {
            self
        }
    }

    /// The state after a suspended generator looked for its response and the
    /// job was still waiting, or not.
    pub open spec fn resume(self, waiting: bool, answered: bool) -> Self {
        if self.awaiting is None || waiting {
            self
        } else {
            GeneratorView { awaiting: None, stopped: self.stopped || !answered, ..self }
        }
    }
}

/// A generator.
pub struct Generator<S> {
    id: usize,
    settings: Option<S>,
    awaiting: Option<u64>,
    stopped: bool,
}

impl<S> View for Generator<S> {
    type V = GeneratorView<S>;

    closed spec fn view(&self) -> GeneratorView<S> {
        GeneratorView {
            id: self.id as nat,
            settings: self.settings,
            awaiting: self.awaiting,
            stopped: self.stopped,
        }
    }
}

impl<S> Generator<S> {
    /// The generator with number `id`.
    pub fn new(id: usize) -> (generator: Self)
        ensures
            generator@ == GeneratorView::<S>::new(id as nat),
    {
        Generator { id, settings: None, awaiting: None, stopped: false }
    }

    /// The generator's number on its device.
    pub fn id(&self) -> (id: usize)
        ensures
            id == self@.id,
    {
        self.id
    }

    /// The settings that the next search step runs on.
    pub fn settings(&self) -> (settings: Option<&S>)
        ensures
            match settings {
                Some(s) => self@.settings == Some(*s),
                None => self@.settings is None,
            },
    {
        self.settings.as_ref()
    }

    /// Whether the generator waits for a response.
    pub fn is_suspended(&self) -> (suspended: bool)
        ensures
            suspended == self@.awaiting is Some,
    {
        self.awaiting.is_some()
    }

    /// Whether the generator has stopped for good.
    pub fn is_stopped(&self) -> (stopped: bool)
        ensures
            stopped == self@.stopped,
    {
        self.stopped
    }

    /// Takes what a poll of the settings slot gave, before a search step.
    ///
    /// An update replaces the settings as a whole. Without one they stay.
    pub fn adopt_settings(&mut self, polled: Option<S>)
        ensures
            final(self)@ == old(self)@.adopt(polled),
    {
        match polled {
            Some(update) => {
                self.settings = Some(update);
            },
            None => {},
        }
    }

    /// Submits the request that the search asks for.
    ///
    /// A generator that runs and is not suspended submits it. Where the
    /// channel takes it, the generator is suspended on its ticket. Where the
    /// channel is closed, the generator stops.
    pub fn request<X, Y>(&mut self, channel: &mut JobChannel<X, Y>, request: X) -> (res: Requested<
        X,
    >)
        requires
            old(channel).wf(),
            old(channel)@.issued < u64::MAX,
        ensures
            final(channel).wf(),
            final(channel)@ == if old(self)@.searching() {
                old(channel)@.submit(request)
            } else {
                old(channel)@
            },
            final(self)@ == old(self)@.request(
                old(channel)@.closed,
                old(channel)@.can_admit(),
                old(channel)@.issued as u64,
            ),
            match res {
                Requested::Queued => old(self)@.searching() && old(channel)@.can_admit(),
                Requested::Full(back) => old(self)@.searching() && !old(channel)@.closed && !old(
                    channel,
                )@.can_admit() && back == request,
                Requested::Closed(back) => old(self)@.searching() && old(channel)@.closed && back
                    == request,
                Requested::Refused(back) => !old(self)@.searching() && back == request,
            },
    {
        if self.stopped || self.awaiting.is_some() {
            return Requested::Refused(request);
        }
        match channel.submit(request) {
            Submission::Accepted(ticket) => {
                self.awaiting = Some(ticket);
                Requested::Queued
            },
            Submission::Suspended(back) => Requested::Full(back),
            Submission::Closed(back) => {
                self.stopped = true;
                Requested::Closed(back)
            },
        }
    }

    /// Looks for the response that the generator waits for.
    ///
    /// The response is handed over once, and the generator is then free for
    /// its next step. Where the channel was closed before the job was
    /// answered, or holds nothing under the ticket, the generator stops.
    pub fn resume<X, Y>(&mut self, channel: &mut JobChannel<X, Y>) -> (res: Resumed<Y>)
        requires
            old(channel).wf(),
        ensures
            final(channel).wf(),
            match old(self)@.awaiting {
                Some(ticket) => {
                    &&& final(channel)@ == old(channel)@.forget(ticket)
                    &&& final(self)@ == old(self)@.resume(
                        old(channel)@.is_waiting(ticket),
                        old(channel)@.answered.contains_key(ticket),
                    )
                    &&& match res {
                        Resumed::Response(response) => old(channel)@.answered.contains_key(ticket)
                            && response == old(channel)@.answered[ticket],
                        Resumed::Pending => old(channel)@.is_waiting(ticket),
                        Resumed::Closed => old(channel)@.cancelled.contains(ticket),
                        Resumed::Lost => !old(channel)@.answered.contains_key(ticket) && !old(
                            channel,
                        )@.cancelled.contains(ticket) && !old(channel)@.is_waiting(ticket),
                        Resumed::Idle => false,
                    }
                },
                None => final(channel)@ == old(channel)@ && final(self)@ == old(self)@
                    && res is Idle,
            },
    {
        let ticket = match self.awaiting {
            Some(ticket) => ticket,
            None => {
                return Resumed::Idle;
            },
        };
        proof {
            crate::job_channel::lemma_pending_tickets(channel@, ticket);
        }
        match channel.collect(ticket) {
            Delivery::Answered(response) => {
                self.awaiting = None;
                Resumed::Response(response)
            },
            Delivery::Waiting => Resumed::Pending,
            Delivery::Closed => {
                self.awaiting = None;
                self.stopped = true;
                Resumed::Closed
            },
            Delivery::Unknown => {
                self.awaiting = None;
                self.stopped = true;
                Resumed::Lost
            },
        }
    }
}

} // verus!
