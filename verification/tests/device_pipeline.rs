use kz_selfplay::executor::Step;
use kz_selfplay::generator::Requested;
use kz_selfplay::generator::Resumed;
use kz_selfplay::job_channel::JobChannel;
use kz_selfplay::protocol::ConfigurationError;
use kz_selfplay::protocol::InferenceFailure;
use kz_selfplay::protocol::StartupSettings;
use kz_selfplay::server_alphazero::AlphaZeroSpecialization;
use kz_selfplay::server_alphazero::DevicePipeline;
use kz_selfplay::thread_names::executor_thread_name;
use kz_selfplay::thread_names::generator_pool_prefix;

type Pipeline = DevicePipeline<u32, u32, &'static str, &'static str>;

fn startup(batch: usize, cpu: usize, gpu: usize) -> StartupSettings {
    StartupSettings {
        gpu_batch_size: batch,
        cpu_threads_per_device: cpu,
        gpu_threads_per_device: gpu,
    }
}

fn lay_out(device_id: usize, startup: &StartupSettings) -> Result<Pipeline, ConfigurationError> {
    AlphaZeroSpecialization.spawn_device_threads(device_id, startup)
}

#[test]
fn two_executors_with_batches_of_eight_run_twenty_four_games() {
    let startup = startup(8, 3, 2);
    assert_eq!(startup.concurrent_games(), Ok(24));
    assert_eq!(startup.job_capacity(), Ok(16));
    let pipeline = lay_out(0, &startup).unwrap();
    assert_eq!(pipeline.generators.len(), 24);
    assert_eq!(pipeline.executors.len(), 2);
    assert_eq!(pipeline.settings_senders.len(), 24);
    assert_eq!(pipeline.graph_senders.len(), 2);
    assert_eq!(pipeline.pool_size, 3);
    assert_eq!(pipeline.job_channel.capacity(), 16);
}

#[test]
fn one_executor_with_batches_of_one() {
    let startup = startup(1, 1, 1);
    assert_eq!(startup.concurrent_games(), Ok(2));
    assert_eq!(startup.job_capacity(), Ok(1));
}

#[test]
fn a_laid_out_pipeline_has_nothing_started() {
    let pipeline = lay_out(5, &startup(4, 2, 3)).unwrap();
    assert_eq!(pipeline.device_id, 5);
    let channel: &JobChannel<u32, Result<u32, InferenceFailure>> = &pipeline.job_channel;
    assert!(!channel.is_closed());
    assert_eq!(channel.issued(), 0);
    assert_eq!(channel.outstanding(), 0);
    assert_eq!(channel.capacity(), 12);
    assert_eq!(pipeline.generators.len(), 16);
    for (i, seat) in pipeline.generators.iter().enumerate() {
        assert_eq!(seat.generator.id(), i);
        assert_eq!(seat.generator.settings(), None);
        assert!(!seat.generator.is_suspended());
        assert!(!seat.generator.is_stopped());
    }
    for (j, seat) in pipeline.executors.iter().enumerate() {
        assert_eq!(seat.local_id, j);
        assert_eq!(seat.executor.batch_size(), 4);
        assert_eq!(seat.executor.graph(), None);
        assert!(!seat.executor.is_busy());
        assert!(!seat.executor.has_failed());
    }
}

#[test]
fn threads_are_named_after_device_and_number() {
    let pipeline = lay_out(5, &startup(4, 2, 3)).unwrap();
    assert_eq!(pipeline.pool_name_prefix, "generator-5-");
    assert_eq!(pipeline.executors[0].thread_name, "gpu-expand-5-0");
    assert_eq!(pipeline.executors[1].thread_name, "gpu-expand-5-1");
    assert_eq!(pipeline.executors[2].thread_name, "gpu-expand-5-2");
}

#[test]
fn numbers_in_names_are_decimal() {
    assert_eq!(generator_pool_prefix(0), "generator-0-");
    assert_eq!(generator_pool_prefix(9), "generator-9-");
    assert_eq!(generator_pool_prefix(10), "generator-10-");
    assert_eq!(generator_pool_prefix(4096), "generator-4096-");
    assert_eq!(executor_thread_name(12, 105), "gpu-expand-12-105");
    assert_eq!(executor_thread_name(0, 0), "gpu-expand-0-0");
    assert_eq!(
        executor_thread_name(usize::MAX, 7),
        format!("gpu-expand-{}-{}", usize::MAX, 7)
    );
}

#[test]
fn each_settings_slot_holds_one_update_and_loses_none() {
    let pipeline = lay_out(0, &startup(2, 1, 1)).unwrap();
    assert_eq!(pipeline.settings_senders.len(), 4);
    for (sender, seat) in pipeline.settings_senders.iter().zip(pipeline.generators.iter()) {
        assert_eq!(sender.capacity(), Some(1));
        assert!(seat.settings.try_recv().is_err());
        assert!(sender.try_send("first").is_ok());
        // The slot is taken: the second update comes back to its sender.
        match sender.try_send("second") {
            Err(flume::TrySendError::Full(back)) => assert_eq!(back, "second"),
            other => panic!("not refused: {:?}", other),
        }
        assert_eq!(seat.settings.try_recv(), Ok("first"));
        assert!(seat.settings.try_recv().is_err());
        assert!(sender.try_send("second").is_ok());
        assert_eq!(seat.settings.try_recv(), Ok("second"));
    }
}

#[test]
fn each_slot_leads_to_its_own_seat() {
    let pipeline = lay_out(0, &startup(2, 1, 2)).unwrap();
    pipeline.graph_senders[1].try_send("for the second").unwrap();
    assert!(pipeline.executors[0].graphs.try_recv().is_err());
    assert_eq!(pipeline.executors[1].graphs.try_recv(), Ok("for the second"));
    pipeline.settings_senders[3].try_send("for the fourth").unwrap();
    for i in [0, 1, 2, 4, 5] {
        assert!(pipeline.generators[i].settings.try_recv().is_err());
    }
    assert_eq!(pipeline.generators[3].settings.try_recv(), Ok("for the fourth"));
    assert_eq!(pipeline.graph_senders[0].capacity(), Some(1));
}

#[test]
fn a_polled_update_becomes_the_generators_settings() {
    let mut pipeline = lay_out(0, &startup(1, 1, 1)).unwrap();
    let seat = &mut pipeline.generators[0];
    seat.poll_settings();
    assert_eq!(seat.generator.settings(), None);
    pipeline.settings_senders[0].try_send("sharp").unwrap();
    seat.poll_settings();
    assert_eq!(seat.generator.settings(), Some(&"sharp"));
    // The slot is empty again: the settings stay.
    seat.poll_settings();
    assert_eq!(seat.generator.settings(), Some(&"sharp"));
    pipeline.settings_senders[0].try_send("wide").unwrap();
    assert_eq!(seat.generator.settings(), Some(&"sharp"));
    seat.poll_settings();
    assert_eq!(seat.generator.settings(), Some(&"wide"));
    // The other generator has its own slot.
    pipeline.generators[1].poll_settings();
    assert_eq!(pipeline.generators[1].generator.settings(), None);
}

#[test]
fn settings_outlive_the_controlling_side() {
    let mut pipeline = lay_out(0, &startup(1, 1, 1)).unwrap();
    pipeline.settings_senders[0].try_send("sharp").unwrap();
    pipeline.settings_senders.clear();
    let seat = &mut pipeline.generators[0];
    seat.poll_settings();
    assert_eq!(seat.generator.settings(), Some(&"sharp"));
    seat.poll_settings();
    assert_eq!(seat.generator.settings(), Some(&"sharp"));
}

#[test]
fn a_polled_graph_is_taken_between_batches() {
    let mut pipeline = lay_out(0, &startup(2, 1, 1)).unwrap();
    let seat = &mut pipeline.executors[0];
    seat.poll_graph();
    assert_eq!(seat.executor.graph(), None);
    pipeline.graph_senders[0].try_send("old").unwrap();
    seat.poll_graph();
    assert_eq!(seat.executor.graph(), Some(&"old"));
    pipeline.job_channel.submit(1);
    pipeline.job_channel.submit(2);
    let jobs = match seat.executor.next_batch(&mut pipeline.job_channel) {
        Step::Run(jobs) => jobs,
        other => panic!("no batch: {:?}", other),
    };
    assert_eq!(jobs.len(), 2);
    pipeline.graph_senders[0].try_send("new").unwrap();
    seat.poll_graph();
    // The batch that runs keeps its graph.
    assert_eq!(seat.executor.graph(), Some(&"old"));
    assert_eq!(seat.executor.complete(&mut pipeline.job_channel, Ok(vec![10, 20])), Ok(()));
    assert_eq!(seat.executor.graph(), Some(&"new"));
    assert_eq!(seat.local_id, 0);
    assert_eq!(seat.thread_name, "gpu-expand-0-0");
}

#[test]
fn a_batch_size_of_zero_is_a_fault() {
    let startup = startup(0, 1, 1);
    assert_eq!(startup.concurrent_games(), Err(ConfigurationError::ZeroBatchSize));
    assert_eq!(startup.job_capacity(), Err(ConfigurationError::ZeroBatchSize));
    assert!(matches!(lay_out(0, &startup), Err(ConfigurationError::ZeroBatchSize)));
}

#[test]
fn no_search_worker_is_a_fault() {
    let startup = startup(4, 0, 1);
    assert_eq!(startup.concurrent_games(), Err(ConfigurationError::ZeroCpuThreads));
    assert!(matches!(lay_out(0, &startup), Err(ConfigurationError::ZeroCpuThreads)));
}

#[test]
fn no_executor_is_a_fault() {
    let startup = startup(4, 1, 0);
    assert_eq!(startup.concurrent_games(), Err(ConfigurationError::ZeroGpuThreads));
    assert!(matches!(lay_out(0, &startup), Err(ConfigurationError::ZeroGpuThreads)));
}

#[test]
fn more_games_than_the_word_holds_are_a_fault() {
    let startup = startup(2, 1, usize::MAX);
    assert_eq!(startup.concurrent_games(), Err(ConfigurationError::TooLarge));
    assert_eq!(startup.job_capacity(), Err(ConfigurationError::TooLarge));
    let startup = self::startup(3, 1, usize::MAX / 2);
    assert_eq!(startup.concurrent_games(), Err(ConfigurationError::TooLarge));
    assert!(matches!(lay_out(0, &startup), Err(ConfigurationError::TooLarge)));
}

#[test]
fn of_several_faults_the_first_is_named() {
    assert_eq!(startup(0, 0, 0).concurrent_games(), Err(ConfigurationError::ZeroBatchSize));
    assert_eq!(startup(1, 0, 0).concurrent_games(), Err(ConfigurationError::ZeroCpuThreads));
    assert_eq!(startup(0, 1, usize::MAX).concurrent_games(), Err(ConfigurationError::ZeroBatchSize));
}

#[test]
fn a_pipeline_answers_every_generator() {
    let mut pipeline = lay_out(0, &startup(2, 1, 2)).unwrap();
    assert_eq!(pipeline.generators.len(), 6);
    assert_eq!(pipeline.job_channel.capacity(), 4);
    for sender in &pipeline.graph_senders {
        sender.try_send("net").unwrap();
    }
    for seat in pipeline.executors.iter_mut() {
        seat.poll_graph();
    }

    // Every generator asks for an evaluation of its own number. The channel
    // takes two batches; the generators of the third have to wait.
    let mut queued = Vec::new();
    for seat in pipeline.generators.iter_mut() {
        let own = seat.generator.id() as u32;
        match seat.generator.request(&mut pipeline.job_channel, own) {
            Requested::Queued => queued.push(seat.generator.id()),
            Requested::Full(back) => assert_eq!(back, own),
            other => panic!("neither queued nor full: {:?}", other),
        }
    }
    assert_eq!(queued, vec![0, 1, 2, 3]);
    assert_eq!(pipeline.job_channel.outstanding(), 4);

    // Both executors run a full batch at once.
    let mut batches = Vec::new();
    for seat in pipeline.executors.iter_mut() {
        match seat.executor.next_batch(&mut pipeline.job_channel) {
            Step::Run(jobs) => batches.push(jobs),
            other => panic!("no batch: {:?}", other),
        }
    }
    assert_eq!(batches[0].len(), 2);
    assert_eq!(batches[1].len(), 2);
    // The second executor is done first.
    let outputs: Vec<u32> = batches[1].iter().map(|job| job.request + 100).collect();
    assert_eq!(pipeline.executors[1].executor.complete(&mut pipeline.job_channel, Ok(outputs)), Ok(()));
    let outputs: Vec<u32> = batches[0].iter().map(|job| job.request + 100).collect();
    assert_eq!(pipeline.executors[0].executor.complete(&mut pipeline.job_channel, Ok(outputs)), Ok(()));

    // The first four generators have their answers; the last two can ask now.
    for seat in pipeline.generators.iter_mut() {
        let own = seat.generator.id() as u32;
        if own < 4 {
            assert_eq!(seat.generator.resume(&mut pipeline.job_channel), Resumed::Response(Ok(own + 100)));
        } else {
            assert_eq!(seat.generator.resume(&mut pipeline.job_channel), Resumed::Idle);
            assert_eq!(seat.generator.request(&mut pipeline.job_channel, own), Requested::Queued);
        }
    }
    let jobs = match pipeline.executors[0].executor.next_batch(&mut pipeline.job_channel) {
        Step::Run(jobs) => jobs,
        other => panic!("no batch: {:?}", other),
    };
    assert_eq!(pipeline.executors[1].executor.next_batch(&mut pipeline.job_channel), Step::Wait);
    let outputs: Vec<u32> = jobs.iter().map(|job| job.request + 100).collect();
    assert_eq!(pipeline.executors[0].executor.complete(&mut pipeline.job_channel, Ok(outputs)), Ok(()));
    assert_eq!(pipeline.generators[4].generator.resume(&mut pipeline.job_channel), Resumed::Response(Ok(104)));
    assert_eq!(pipeline.generators[5].generator.resume(&mut pipeline.job_channel), Resumed::Response(Ok(105)));
    assert_eq!(pipeline.job_channel.outstanding(), 0);
    assert_eq!(pipeline.job_channel.issued(), 6);

    // Tearing down: every generator that asks or waits is told.
    assert_eq!(pipeline.generators[0].generator.request(&mut pipeline.job_channel, 0), Requested::Queued);
    pipeline.job_channel.close();
    assert_eq!(pipeline.generators[0].generator.resume(&mut pipeline.job_channel), Resumed::Closed);
    assert_eq!(pipeline.generators[1].generator.request(&mut pipeline.job_channel, 1), Requested::Closed(1));
    for seat in pipeline.executors.iter_mut() {
        assert_eq!(seat.executor.next_batch(&mut pipeline.job_channel), Step::Shutdown);
    }
}
