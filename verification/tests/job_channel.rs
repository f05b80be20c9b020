use kz_selfplay::job_channel::Delivery;
use kz_selfplay::job_channel::Drained;
use kz_selfplay::job_channel::Job;
use kz_selfplay::job_channel::JobChannel;
use kz_selfplay::job_channel::Submission;

fn batch(channel: &mut JobChannel<&'static str, u32>, max_n: usize) -> Vec<Job<&'static str>> {
    match channel.recv_batch(max_n) {
        Drained::Batch(jobs) => jobs,
        other => panic!("no batch: {:?}", other),
    }
}

#[test]
fn fresh_channel_is_open_and_empty() {
    let channel: JobChannel<&'static str, u32> = JobChannel::open(3);
    assert_eq!(channel.capacity(), 3);
    assert!(!channel.is_closed());
    assert_eq!(channel.issued(), 0);
    assert_eq!(channel.pending_len(), 0);
    assert_eq!(channel.outstanding(), 0);
}

#[test]
fn tickets_are_handed_out_in_order() {
    let mut channel: JobChannel<&'static str, u32> = JobChannel::open(3);
    assert_eq!(channel.submit("a"), Submission::Accepted(0));
    assert_eq!(channel.submit("b"), Submission::Accepted(1));
    assert_eq!(channel.submit("c"), Submission::Accepted(2));
    assert_eq!(channel.issued(), 3);
    assert_eq!(channel.pending_len(), 3);
    assert_eq!(channel.outstanding(), 3);
}

#[test]
fn every_job_gets_exactly_one_response() {
    let mut channel: JobChannel<&'static str, u32> = JobChannel::open(4);
    let requests = ["a", "bb", "ccc"];
    let mut tickets = Vec::new();
    for request in requests {
        match channel.submit(request) {
            Submission::Accepted(ticket) => tickets.push(ticket),
            other => panic!("not accepted: {:?}", other),
        }
    }
    for ticket in &tickets {
        assert_eq!(channel.collect(*ticket), Delivery::Waiting);
    }
    while channel.pending_len() > 0 {
        for job in batch(&mut channel, 2) {
            assert_eq!(channel.reply(job.ticket, job.request.len() as u32), Ok(()));
        }
    }
    assert_eq!(channel.outstanding(), 0);
    assert_eq!(channel.collect(tickets[0]), Delivery::Answered(1));
    assert_eq!(channel.collect(tickets[1]), Delivery::Answered(2));
    assert_eq!(channel.collect(tickets[2]), Delivery::Answered(3));
    for ticket in &tickets {
        assert_eq!(channel.collect(*ticket), Delivery::Unknown);
    }
}

#[test]
fn batches_hold_the_oldest_jobs_first() {
    let mut channel: JobChannel<&'static str, u32> = JobChannel::open(5);
    for request in ["a", "b", "c", "d", "e"] {
        channel.submit(request);
    }
    assert_eq!(
        batch(&mut channel, 2),
        vec![Job { ticket: 0, request: "a" }, Job { ticket: 1, request: "b" }]
    );
    assert_eq!(channel.pending_len(), 3);
    assert_eq!(channel.outstanding(), 5);
    assert_eq!(
        batch(&mut channel, 10),
        vec![
            Job { ticket: 2, request: "c" },
            Job { ticket: 3, request: "d" },
            Job { ticket: 4, request: "e" }
        ]
    );
    assert_eq!(channel.recv_batch(10), Drained::Empty);
}

#[test]
fn a_batch_of_no_jobs_is_never_handed_out() {
    let mut channel: JobChannel<&'static str, u32> = JobChannel::open(2);
    assert_eq!(channel.recv_batch(4), Drained::Empty);
    channel.submit("a");
    assert_eq!(channel.recv_batch(0), Drained::Empty);
    assert_eq!(channel.pending_len(), 1);
    assert_eq!(batch(&mut channel, 1), vec![Job { ticket: 0, request: "a" }]);
}

#[test]
fn submission_is_suspended_at_capacity_until_a_reply() {
    let mut channel: JobChannel<&'static str, u32> = JobChannel::open(2);
    assert_eq!(channel.submit("a"), Submission::Accepted(0));
    assert_eq!(channel.submit("b"), Submission::Accepted(1));
    assert_eq!(channel.submit("c"), Submission::Suspended("c"));
    assert_eq!(channel.issued(), 2);
    // Handing a job to a server does not make room: it is still unanswered.
    assert_eq!(batch(&mut channel, 1).len(), 1);
    assert_eq!(channel.submit("c"), Submission::Suspended("c"));
    assert_eq!(channel.reply(0, 10), Ok(()));
    assert_eq!(channel.outstanding(), 1);
    assert_eq!(channel.submit("c"), Submission::Accepted(2));
    assert_eq!(channel.submit("d"), Submission::Suspended("d"));
}

#[test]
fn a_channel_without_capacity_admits_nothing() {
    let mut channel: JobChannel<&'static str, u32> = JobChannel::open(0);
    assert_eq!(channel.submit("a"), Submission::Suspended("a"));
    assert_eq!(channel.recv_batch(1), Drained::Empty);
}

#[test]
fn a_reply_needs_a_job_that_a_server_holds() {
    let mut channel: JobChannel<&'static str, u32> = JobChannel::open(3);
    // Not submitted yet.
    assert_eq!(channel.reply(0, 7), Err(7));
    channel.submit("a");
    // Submitted, but still queued.
    assert_eq!(channel.reply(0, 7), Err(7));
    assert_eq!(channel.collect(0), Delivery::Waiting);
    batch(&mut channel, 1);
    assert_eq!(channel.reply(0, 7), Ok(()));
    // Answered before.
    assert_eq!(channel.reply(0, 8), Err(8));
    assert_eq!(channel.collect(0), Delivery::Answered(7));
    // Collected before.
    assert_eq!(channel.reply(0, 9), Err(9));
    assert_eq!(channel.collect(0), Delivery::Unknown);
}

#[test]
fn closing_fails_every_unanswered_job_and_every_later_submission() {
    let mut channel: JobChannel<&'static str, u32> = JobChannel::open(4);
    for request in ["a", "b", "c", "d"] {
        channel.submit(request);
    }
    batch(&mut channel, 2);
    assert_eq!(channel.reply(0, 10), Ok(()));
    channel.close();
    assert!(channel.is_closed());
    assert_eq!(channel.outstanding(), 0);
    assert_eq!(channel.pending_len(), 0);
    // Answered before closing: the response is still there.
    assert_eq!(channel.collect(0), Delivery::Answered(10));
    // With a server at closing.
    assert_eq!(channel.collect(1), Delivery::Closed);
    // Queued at closing.
    assert_eq!(channel.collect(2), Delivery::Closed);
    assert_eq!(channel.collect(3), Delivery::Closed);
    // Each cancellation is told once.
    assert_eq!(channel.collect(1), Delivery::Unknown);
    assert_eq!(channel.submit("e"), Submission::Closed("e"));
    assert_eq!(channel.recv_batch(2), Drained::Closed);
    assert_eq!(channel.reply(1, 11), Err(11));
    channel.close();
    assert!(channel.is_closed());
    assert_eq!(channel.collect(3), Delivery::Unknown);
}

#[test]
fn a_suspended_submitter_learns_of_closing() {
    let mut channel: JobChannel<&'static str, u32> = JobChannel::open(1);
    assert_eq!(channel.submit("a"), Submission::Accepted(0));
    assert_eq!(channel.submit("b"), Submission::Suspended("b"));
    channel.close();
    assert_eq!(channel.submit("b"), Submission::Closed("b"));
    assert_eq!(channel.collect(0), Delivery::Closed);
}

#[test]
fn an_unknown_ticket_is_told_apart_from_a_waiting_one() {
    let mut channel: JobChannel<&'static str, u32> = JobChannel::open(3);
    assert_eq!(channel.collect(0), Delivery::Unknown);
    channel.submit("a");
    channel.submit("b");
    assert_eq!(channel.collect(1), Delivery::Waiting);
    assert_eq!(channel.collect(2), Delivery::Unknown);
    batch(&mut channel, 1);
    assert_eq!(channel.collect(0), Delivery::Waiting);
    assert_eq!(channel.collect(1), Delivery::Waiting);
    assert_eq!(channel.collect(u64::MAX), Delivery::Unknown);
}

#[test]
fn two_servers_never_get_the_same_job() {
    let mut channel: JobChannel<&'static str, u32> = JobChannel::open(4);
    for request in ["a", "b", "c", "d"] {
        channel.submit(request);
    }
    let first = batch(&mut channel, 3);
    let second = batch(&mut channel, 3);
    assert_eq!(first.len(), 3);
    assert_eq!(second, vec![Job { ticket: 3, request: "d" }]);
    for job in &first {
        assert!(job.ticket != 3);
    }
}
