//! Laying out the pipeline of one device.

use crate::executor::Executor;
use crate::executor::ExecutorView;
use crate::generator::Generator;
use crate::generator::GeneratorView;
use crate::job_channel::ChannelView;
use crate::job_channel::JobChannel;
use crate::pipeline::PipelineView;
use crate::protocol::BatchPolicy;
use crate::protocol::ConfigurationError;
use crate::protocol::InferenceFailure;
use crate::protocol::StartupSettings;
use crate::thread_names::executor_thread_name;
use crate::thread_names::generator_pool_prefix;
use crate::thread_names::spec_executor_thread_name;
use crate::thread_names::spec_generator_pool_prefix;
use crate::update_slot::open_slot;
use crate::update_slot::take_update;
use vstd::prelude::*;

verus! {

/// The place of one generator on a device: its state and the receiving end
/// of its settings slot.
#[verifier::reject_recursive_types(S)]
pub struct GeneratorSeat<S> {
    pub generator: Generator<S>,
    pub settings: flume::Receiver<S>,
}

/// The place of one executor on a device: its number, the name of its
/// thread, its state and the receiving end of its graph slot.
#[verifier::reject_recursive_types(G)]
pub struct ExecutorSeat<G> {
    pub local_id: usize,
    pub thread_name: String,
    pub executor: Executor<G>,
    pub graphs: flume::Receiver<G>,
}

impl<S> GeneratorSeat<S> {
    /// Polls the settings slot, without waiting, and lets the generator
    /// adopt what the poll gave.
    ///
    /// Whatever the slot holds, the generator's settings afterwards are those
    /// that it had or a whole update, and nothing else of it changes.
    pub fn poll_settings(&mut self)
        ensures
            exists|polled: Option<S>| #[trigger]
                old(self).generator@.adopt(polled) == final(self).generator@,
            final(self).settings == old(self).settings,
    {
        let polled = take_update(&self.settings);
        self.generator.adopt_settings(polled);
    }
}

impl<G> ExecutorSeat<G> {
    /// Polls the graph slot, without waiting, and lets the executor take the
    /// graph that the poll gave, if any.
    ///
    /// Whatever the slot holds, the executor afterwards is as it was or as
    /// it is after one graph arrived; a batch that runs keeps its graph.
    pub fn poll_graph(&mut self)
        requires
            old(self).executor.wf(),
        ensures
            final(self).executor.wf(),
            final(self).executor@ == old(self).executor@ || exists|graph: G| #[trigger]
                old(self).executor@.install(graph) == final(self).executor@,
            final(self).graphs == old(self).graphs,
            final(self).local_id == old(self).local_id,
            final(self).thread_name == old(self).thread_name,
    {
        match take_update(&self.graphs) {
            Some(graph) => {
                self.executor.install_graph(graph);
            },
            None => {},
        }
    }
}

/// All that the tasks and threads of one device work on.
///
/// Requests are of type `X` and evaluations of type `E`; settings are of
/// type `S` and graphs of type `G`.
#[verifier::reject_recursive_types(S)]
#[verifier::reject_recursive_types(G)]
pub struct DevicePipeline<X, E, S, G> {
    /// The device's number.
    pub device_id: usize,
    /// The number of workers in the pool that runs the generators.
    pub pool_size: usize,
    /// The prefix of the names of the pool's workers.
    pub pool_name_prefix: String,
    /// The channel between the generators and the executors.
    pub job_channel: JobChannel<X, Result<E, InferenceFailure>>,
    /// One seat for each generator, in the order of their numbers.
    pub generators: Vec<GeneratorSeat<S>>,
    /// One seat for each executor, in the order of their numbers.
    pub executors: Vec<ExecutorSeat<G>>,
    /// The sending ends of the settings slots, in the generators' order.
    pub settings_senders: Vec<flume::Sender<S>>,
    /// The sending ends of the graph slots, in the executors' order.
    pub graph_senders: Vec<flume::Sender<G>>,
}

impl<X, E, S, G> View for DevicePipeline<X, E, S, G> {
    type V = PipelineView<X, E, S, G>;

    open spec fn view(&self) -> PipelineView<X, E, S, G> {
        PipelineView {
            channel: self.job_channel@,
            generators: Seq::new(self.generators@.len(), |i: int| self.generators@[i].generator@),
            executors: Seq::new(self.executors@.len(), |j: int| self.executors@[j].executor@),
        }
    }
}

impl<X, E, S, G> DevicePipeline<X, E, S, G> {
    /// Whether the pipeline is the one that `startup` asks for on device
    /// `device_id`, with nothing started yet.
    pub open spec fn laid_out_for(self, device_id: usize, startup: StartupSettings) -> bool {
        &&& self.device_id == device_id
        &&& self.pool_size == startup.cpu_threads_per_device
        &&& self.pool_name_prefix@ == spec_generator_pool_prefix(device_id as nat)
        &&& self.job_channel.wf()
        &&& self.job_channel@ == ChannelView::<X, Result<E, InferenceFailure>>::open(
            startup.spec_job_capacity(),
        )
        &&& self.generators@.len() == startup.spec_concurrent_games()
        &&& self.settings_senders@.len() == startup.spec_concurrent_games()
        &&& forall|i: int|
            0 <= i < self.generators@.len() ==> (#[trigger] self.generators@[i]).generator@
                == GeneratorView::<S>::new(i as nat)
        &&& self.executors@.len() == startup.gpu_threads_per_device
        &&& self.graph_senders@.len() == startup.gpu_threads_per_device
        &&& forall|j: int|
            0 <= j < self.executors@.len() ==> {
                &&& (#[trigger] self.executors@[j]).local_id == j
                &&& self.executors@[j].thread_name@ == spec_executor_thread_name(
                    device_id as nat,
                    j as nat,
                )
                &&& self.executors@[j].executor.wf()
                &&& self.executors@[j].executor@ == ExecutorView::<G>::new(
                    startup.gpu_batch_size as nat,
                    BatchPolicy::chosen(),
                )
            }
    }
}

/// The pipeline of the network family that evaluates single positions.
#[derive(Debug)]
pub struct AlphaZeroSpecialization;

impl AlphaZeroSpecialization {
    /// Lays out the pipeline of device `device_id`.
    ///
    /// With a sizing that has no fault, the pipeline holds: a job channel
    /// that admits one batch for each executor; a seat for each of the
    /// concurrent games' generators and for each executor, numbered from 0;
    /// and for each seat a fresh slot for live updates, whose sending end is
    /// kept apart for the controlling side. Starting the tasks and threads on
    /// the seats is the caller's part. With a faulty sizing nothing is made.
    pub fn spawn_device_threads<X, E, S, G>(
        &self,
        device_id: usize,
        startup: &StartupSettings,
    ) -> (res: Result<DevicePipeline<X, E, S, G>, ConfigurationError>)
        ensures
            match res {
                Ok(pipeline) => startup.fault() is None && pipeline.laid_out_for(
                    device_id,
                    *startup,
                ),
                Err(e) => startup.fault() == Some(e),
            },
    {
        let gpu_batch_size = startup.gpu_batch_size;
        let cpu_threads = startup.cpu_threads_per_device;
        let gpu_threads = startup.gpu_threads_per_device;
        let concurrent_games = match startup.concurrent_games() {
            Ok(games) => games,
            Err(e) => {
                return Err(e);
            },
        };
        let capacity = match startup.job_capacity() {
            Ok(capacity) => capacity,
            Err(e) => {
                return Err(e);
            },
        };

        let mut settings_senders: Vec<flume::Sender<S>> = Vec::new();
        let mut graph_senders: Vec<flume::Sender<G>> = Vec::new();

        let job_channel = JobChannel::open(capacity);

        let mut generators: Vec<GeneratorSeat<S>> = Vec::new();
        let mut generator_id: usize = 0;
        while generator_id < concurrent_games
            invariant
                generator_id <= concurrent_games,
                generators@.len() == generator_id,
                settings_senders@.len() == generator_id,
                forall|i: int|
                    0 <= i < generators@.len() ==> (#[trigger] generators@[i]).generator@
                        == GeneratorView::<S>::new(i as nat),
            decreases concurrent_games - generator_id,
        {
            let (settings_sender, settings_receiver) = open_slot::<S>();
            settings_senders.push(settings_sender);
            generators.push(
                GeneratorSeat { generator: Generator::new(generator_id), settings: settings_receiver },
            );
            generator_id = generator_id + 1;
        }

        let mut executors: Vec<ExecutorSeat<G>> = Vec::new();
        let mut local_id: usize = 0;
        while local_id < gpu_threads
            invariant
                gpu_batch_size >= 1,
                local_id <= gpu_threads,
                executors@.len() == local_id,
                graph_senders@.len() == local_id,
                forall|j: int|
                    0 <= j < executors@.len() ==> {
                        &&& (#[trigger] executors@[j]).local_id == j
                        &&& executors@[j].thread_name@ == spec_executor_thread_name(
                            device_id as nat,
                            j as nat,
                        )
                        &&& executors@[j].executor.wf()
                        &&& executors@[j].executor@ == ExecutorView::<G>::new(
                            gpu_batch_size as nat,
                            BatchPolicy::chosen(),
                        )
                    },
            decreases gpu_threads - local_id,
        {
            let (graph_sender, graph_receiver) = open_slot::<G>();
            graph_senders.push(graph_sender);
            let executor = match Executor::new(gpu_batch_size, BatchPolicy::chosen()) {
                Ok(executor) => executor,
                Err(e) => {
                    return Err(e);
                },
            };
            let thread_name = executor_thread_name(device_id, local_id);
            executors.push(ExecutorSeat { local_id, thread_name, executor, graphs: graph_receiver });
            local_id = local_id + 1;
        }

        Ok(
            DevicePipeline {
                device_id,
                pool_size: cpu_threads,
                pool_name_prefix: generator_pool_prefix(device_id),
                job_channel,
                generators,
                executors,
                settings_senders,
                graph_senders,
            },
        )
    }
}

/// On a pipeline that was just laid out nothing has started: its channel is
/// fresh, no generator waits and no executor runs a batch. It has the
/// capacity, the generators and the executors that the sizing asks for.
pub proof fn law_laid_out_pipeline_is_fresh<X, E, S, G>(
    pipeline: DevicePipeline<X, E, S, G>,
    device_id: usize,
    startup: StartupSettings,
)
    requires
        startup.fault() is None,
        pipeline.laid_out_for(device_id, startup),
    ensures
        pipeline@.fresh(),
        pipeline@.channel.capacity == startup.spec_job_capacity(),
        pipeline@.generators.len() == startup.spec_concurrent_games(),
        pipeline@.executors.len() == startup.gpu_threads_per_device,
{
    let p = pipeline@;
    assert forall|i: int| 0 <= i < p.generators.len() implies (#[trigger] p.generators[i]).awaiting is None by {
        assert(pipeline.generators@[i].generator@ == GeneratorView::<S>::new(i as nat));
    }
    assert forall|j: int| 0 <= j < p.executors.len() implies (#[trigger] p.executors[j]).wf()
        && p.executors[j].running.len() == 0 by {
        assert(pipeline.executors@[j].local_id == j);
    }
}

} // verus!
