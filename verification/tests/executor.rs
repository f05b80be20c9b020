use kz_selfplay::executor::Executor;
use kz_selfplay::executor::Step;
use kz_selfplay::job_channel::Delivery;
use kz_selfplay::job_channel::Job;
use kz_selfplay::job_channel::JobChannel;
use kz_selfplay::job_channel::Submission;
use kz_selfplay::protocol::BatchPolicy;
use kz_selfplay::protocol::ConfigurationError;
use kz_selfplay::protocol::InferenceFailure;

type Channel = JobChannel<u32, Result<u32, InferenceFailure>>;

fn executor(batch_size: usize, policy: BatchPolicy) -> Executor<&'static str> {
    match Executor::new(batch_size, policy) {
        Ok(executor) => executor,
        Err(e) => panic!("no executor: {:?}", e),
    }
}

fn run(executor: &mut Executor<&'static str>, channel: &mut Channel) -> Vec<Job<u32>> {
    match executor.next_batch(channel) {
        Step::Run(jobs) => jobs,
        other => panic!("no batch: {:?}", other),
    }
}

fn double(jobs: &[Job<u32>]) -> Vec<u32> {
    let mut outputs = Vec::new();
    for job in jobs {
        outputs.push(job.request * 2);
    }
    outputs
}

#[test]
fn a_batch_size_of_zero_is_refused() {
    let made: Result<Executor<&'static str>, ConfigurationError> =
        Executor::new(0, BatchPolicy::ServePartial);
    assert!(matches!(made, Err(ConfigurationError::ZeroBatchSize)));
}

#[test]
fn the_chosen_policy_serves_undersized_batches() {
    assert_eq!(BatchPolicy::chosen(), BatchPolicy::ServePartial);
}

#[test]
fn no_batch_without_a_graph() {
    let mut channel: Channel = JobChannel::open(4);
    let mut executor = executor(2, BatchPolicy::ServePartial);
    channel.submit(1);
    channel.submit(2);
    assert!(executor.graph().is_none());
    assert_eq!(executor.next_batch(&mut channel), Step::AwaitGraph);
    assert_eq!(channel.pending_len(), 2);
    executor.install_graph("first");
    assert_eq!(executor.graph(), Some(&"first"));
    assert_eq!(run(&mut executor, &mut channel).len(), 2);
}

#[test]
fn a_full_batch_is_formed_and_answered_before_the_next() {
    let mut channel: Channel = JobChannel::open(8);
    let mut executor = executor(3, BatchPolicy::WaitForFull);
    executor.install_graph("g");
    for request in [10, 20, 30, 40, 50, 60, 70] {
        assert!(matches!(channel.submit(request), Submission::Accepted(_)));
    }
    let jobs = run(&mut executor, &mut channel);
    assert_eq!(
        jobs,
        vec![
            Job { ticket: 0, request: 10 },
            Job { ticket: 1, request: 20 },
            Job { ticket: 2, request: 30 }
        ]
    );
    assert!(executor.is_busy());
    // Four more are pending, and still no second batch is formed.
    assert_eq!(executor.next_batch(&mut channel), Step::Busy);
    assert_eq!(channel.pending_len(), 4);
    assert_eq!(executor.complete(&mut channel, Ok(double(&jobs))), Ok(()));
    assert!(!executor.is_busy());
    assert_eq!(channel.collect(0), Delivery::Answered(Ok(20)));
    assert_eq!(channel.collect(1), Delivery::Answered(Ok(40)));
    assert_eq!(channel.collect(2), Delivery::Answered(Ok(60)));
    let jobs = run(&mut executor, &mut channel);
    assert_eq!(jobs.len(), 3);
    assert_eq!(jobs[0], Job { ticket: 3, request: 40 });
}

#[test]
fn five_jobs_at_once_with_partial_batches_served() {
    let mut channel: Channel = JobChannel::open(4);
    let mut executor = executor(2, BatchPolicy::chosen());
    executor.install_graph("g");
    let mut batches = Vec::new();
    for request in [1, 2, 3, 4] {
        assert!(matches!(channel.submit(request), Submission::Accepted(_)));
    }
    assert_eq!(channel.submit(5), Submission::Suspended(5));

    let jobs = run(&mut executor, &mut channel);
    batches.push(jobs.len());
    // The first batch runs: the fifth job still has to wait.
    assert_eq!(channel.submit(5), Submission::Suspended(5));
    assert_eq!(executor.complete(&mut channel, Ok(double(&jobs))), Ok(()));
    // A batch is completed: the fifth job is queued.
    assert_eq!(channel.submit(5), Submission::Accepted(4));

    let jobs = run(&mut executor, &mut channel);
    batches.push(jobs.len());
    assert_eq!(jobs, vec![Job { ticket: 2, request: 3 }, Job { ticket: 3, request: 4 }]);
    assert_eq!(executor.complete(&mut channel, Ok(double(&jobs))), Ok(()));

    let jobs = run(&mut executor, &mut channel);
    batches.push(jobs.len());
    assert_eq!(jobs, vec![Job { ticket: 4, request: 5 }]);
    assert_eq!(executor.complete(&mut channel, Ok(double(&jobs))), Ok(()));

    assert_eq!(batches, vec![2, 2, 1]);
    assert_eq!(executor.next_batch(&mut channel), Step::Wait);
    for (ticket, request) in [(0u64, 1u32), (1, 2), (2, 3), (3, 4), (4, 5)] {
        assert_eq!(channel.collect(ticket), Delivery::Answered(Ok(request * 2)));
    }
}

#[test]
fn five_jobs_at_once_with_full_batches_only() {
    let mut channel: Channel = JobChannel::open(4);
    let mut executor = executor(2, BatchPolicy::WaitForFull);
    executor.install_graph("g");
    for request in [1, 2, 3, 4] {
        assert!(matches!(channel.submit(request), Submission::Accepted(_)));
    }
    assert_eq!(channel.submit(5), Submission::Suspended(5));

    let jobs = run(&mut executor, &mut channel);
    assert_eq!(jobs.len(), 2);
    assert_eq!(channel.submit(5), Submission::Suspended(5));
    assert_eq!(executor.complete(&mut channel, Ok(double(&jobs))), Ok(()));
    assert_eq!(channel.submit(5), Submission::Accepted(4));

    let jobs = run(&mut executor, &mut channel);
    assert_eq!(jobs.len(), 2);
    assert_eq!(executor.complete(&mut channel, Ok(double(&jobs))), Ok(()));

    // One job is pending: under this policy it waits for a second one.
    assert_eq!(executor.next_batch(&mut channel), Step::Wait);
    assert_eq!(channel.pending_len(), 1);
    assert_eq!(channel.collect(4), Delivery::Waiting);
    assert_eq!(channel.submit(6), Submission::Accepted(5));
    let jobs = run(&mut executor, &mut channel);
    assert_eq!(jobs, vec![Job { ticket: 4, request: 5 }, Job { ticket: 5, request: 6 }]);
}

#[test]
fn a_graph_is_swapped_between_batches() {
    let mut channel: Channel = JobChannel::open(4);
    let mut executor = executor(2, BatchPolicy::ServePartial);
    executor.install_graph("old");
    for request in [1, 2, 3, 4] {
        channel.submit(request);
    }
    let jobs = run(&mut executor, &mut channel);
    executor.install_graph("new");
    // The batch that runs keeps its graph.
    assert_eq!(executor.graph(), Some(&"old"));
    executor.install_graph("newer");
    assert_eq!(executor.graph(), Some(&"old"));
    assert_eq!(executor.complete(&mut channel, Ok(double(&jobs))), Ok(()));
    // The next batch runs on the newest graph.
    assert_eq!(executor.graph(), Some(&"newer"));
    let jobs = run(&mut executor, &mut channel);
    assert_eq!(executor.graph(), Some(&"newer"));
    assert_eq!(executor.complete(&mut channel, Ok(double(&jobs))), Ok(()));
    assert_eq!(executor.graph(), Some(&"newer"));
    // An idle executor takes a graph at once.
    executor.install_graph("last");
    assert_eq!(executor.graph(), Some(&"last"));
}

#[test]
fn a_failed_pass_fails_the_whole_batch_and_stops_the_executor() {
    let mut channel: Channel = JobChannel::open(4);
    let mut executor = executor(2, BatchPolicy::ServePartial);
    executor.install_graph("g");
    for request in [1, 2, 3] {
        channel.submit(request);
    }
    let jobs = run(&mut executor, &mut channel);
    assert_eq!(jobs.len(), 2);
    assert_eq!(executor.complete(&mut channel, Err(InferenceFailure)), Err(InferenceFailure));
    assert!(executor.has_failed());
    assert!(!executor.is_busy());
    assert_eq!(channel.collect(0), Delivery::Answered(Err(InferenceFailure)));
    assert_eq!(channel.collect(1), Delivery::Answered(Err(InferenceFailure)));
    // The third job was not in the batch.
    assert_eq!(channel.collect(2), Delivery::Waiting);
    assert_eq!(executor.next_batch(&mut channel), Step::Failed);
    assert_eq!(channel.pending_len(), 1);
}

#[test]
fn outputs_that_do_not_match_the_batch_count_as_a_failure() {
    let mut channel: Channel = JobChannel::open(4);
    let mut executor = executor(2, BatchPolicy::ServePartial);
    executor.install_graph("g");
    channel.submit(1);
    channel.submit(2);
    run(&mut executor, &mut channel);
    assert_eq!(executor.complete(&mut channel, Ok(vec![7])), Err(InferenceFailure));
    assert!(executor.has_failed());
    assert_eq!(channel.collect(0), Delivery::Answered(Err(InferenceFailure)));
    assert_eq!(channel.collect(1), Delivery::Answered(Err(InferenceFailure)));
}

#[test]
fn one_bad_batch_leaves_the_batches_of_other_executors_alone() {
    let mut channel: Channel = JobChannel::open(4);
    let mut first = executor(2, BatchPolicy::ServePartial);
    let mut second = executor(2, BatchPolicy::ServePartial);
    first.install_graph("g");
    second.install_graph("g");
    for request in [1, 2, 3, 4] {
        channel.submit(request);
    }
    let bad = run(&mut first, &mut channel);
    let good = run(&mut second, &mut channel);
    assert_eq!(bad[0].ticket, 0);
    assert_eq!(good[0].ticket, 2);
    assert_eq!(first.complete(&mut channel, Err(InferenceFailure)), Err(InferenceFailure));
    assert_eq!(second.complete(&mut channel, Ok(double(&good))), Ok(()));
    assert_eq!(channel.collect(1), Delivery::Answered(Err(InferenceFailure)));
    assert_eq!(channel.collect(2), Delivery::Answered(Ok(6)));
    assert_eq!(channel.collect(3), Delivery::Answered(Ok(8)));
    assert!(!second.has_failed());
}

#[test]
fn an_executor_exits_on_a_closed_channel() {
    let mut channel: Channel = JobChannel::open(4);
    let mut executor = executor(2, BatchPolicy::ServePartial);
    channel.submit(1);
    channel.close();
    // Closing is seen before the missing graph.
    assert_eq!(executor.next_batch(&mut channel), Step::Shutdown);
    executor.install_graph("g");
    assert_eq!(executor.next_batch(&mut channel), Step::Shutdown);
}

#[test]
fn completing_after_closing_answers_nothing() {
    let mut channel: Channel = JobChannel::open(4);
    let mut executor = executor(2, BatchPolicy::ServePartial);
    executor.install_graph("g");
    channel.submit(1);
    channel.submit(2);
    let jobs = run(&mut executor, &mut channel);
    channel.close();
    assert_eq!(executor.complete(&mut channel, Ok(double(&jobs))), Ok(()));
    assert!(!executor.is_busy());
    assert_eq!(channel.collect(0), Delivery::Closed);
    assert_eq!(channel.collect(1), Delivery::Closed);
    assert_eq!(executor.next_batch(&mut channel), Step::Shutdown);
}

#[test]
fn an_idle_executor_waits_on_an_empty_channel() {
    let mut channel: Channel = JobChannel::open(4);
    let mut executor = executor(2, BatchPolicy::ServePartial);
    executor.install_graph("g");
    assert_eq!(executor.batch_size(), 2);
    assert_eq!(executor.next_batch(&mut channel), Step::Wait);
    assert_eq!(executor.complete(&mut channel, Ok(vec![])), Ok(()));
    assert!(!executor.has_failed());
}
