//! Values exchanged between the parts of a device pipeline.

use vstd::prelude::*;

verus! {

/// Sizing of one device pipeline, fixed for the pipeline's lifetime.
#[derive(Clone, Copy, Debug)]
pub struct StartupSettings {
    /// Number of requests one accelerator pass accepts.
    pub gpu_batch_size: usize,
    /// Number of cooperative search workers per device.
    pub cpu_threads_per_device: usize,
    /// Number of accelerator-bound executor threads per device.
    pub gpu_threads_per_device: usize,
}

/// Why a sizing cannot be used to build a pipeline.
#[derive(Clone, Copy, Debug, PartialEq, Eq, Structural)]
pub enum ConfigurationError {
    /// The batch size is zero.
    ZeroBatchSize,
    /// No search worker was asked for.
    ZeroCpuThreads,
    /// No executor thread was asked for.
    ZeroGpuThreads,
    /// The number of concurrent games does not fit the machine's word.
    TooLarge,
}

impl StartupSettings {
    /// The number of games that run at once on the device: one batch more
    /// than the executors can hold, so that the next batch is being searched
    /// for while the current ones are evaluated.
    pub open spec fn spec_concurrent_games(self) -> nat {
        ((self.gpu_threads_per_device + 1) * self.gpu_batch_size) as nat
    }

    /// The number of unanswered jobs that the device's job channel admits:
    /// one batch for each executor.
    pub open spec fn spec_job_capacity(self) -> nat {
        (self.gpu_threads_per_device * self.gpu_batch_size) as nat
    }

    /// What is wrong with the sizing, if anything. Of several faults the
    /// first in this order is named: no batch, no worker, no executor, too
    /// many games.
    pub open spec fn fault(self) -> Option<ConfigurationError> {
        if self.gpu_batch_size == 0 {
            Some(ConfigurationError::ZeroBatchSize)
        } else if self.cpu_threads_per_device == 0 {
            Some(ConfigurationError::ZeroCpuThreads)
        } else if self.gpu_threads_per_device == 0 {
            Some(ConfigurationError::ZeroGpuThreads)
        } else if self.spec_concurrent_games() > usize::MAX {
            Some(ConfigurationError::TooLarge)
        } else {
            None
        }
    }

    /// The number of games that run at once on the device, or what is wrong
    /// with the sizing.
    pub fn concurrent_games(&self) -> (res: Result<usize, ConfigurationError>)
        ensures
            match res {
                Ok(games) => self.fault() is None && games == self.spec_concurrent_games(),
                Err(e) => self.fault() == Some(e),
            },
    {
        if self.gpu_batch_size == 0 {
            return Err(ConfigurationError::ZeroBatchSize);
        }
        if self.cpu_threads_per_device == 0 {
            return Err(ConfigurationError::ZeroCpuThreads);
        }
        if self.gpu_threads_per_device == 0 {
            return Err(ConfigurationError::ZeroGpuThreads);
        }
        let batches = match self.gpu_threads_per_device.checked_add(1) {
            Some(batches) => batches,
            None => {
                assert((self.gpu_threads_per_device + 1) * self.gpu_batch_size > usize::MAX)
                    by (nonlinear_arith)
                    requires
                        self.gpu_threads_per_device + 1 > usize::MAX,
                        self.gpu_batch_size >= 1,
                ;
                return Err(ConfigurationError::TooLarge);
            },
        };
        match batches.checked_mul(self.gpu_batch_size) {
            Some(games) => Ok(games),
            None => Err(ConfigurationError::TooLarge),
        }
    }

    /// The number of unanswered jobs that the device's job channel admits, or
    /// what is wrong with the sizing.
    pub fn job_capacity(&self) -> (res: Result<usize, ConfigurationError>)
        ensures
            match res {
                Ok(capacity) => self.fault() is None && capacity == self.spec_job_capacity(),
                Err(e) => self.fault() == Some(e),
            },
    {
        match self.concurrent_games() {
            Ok(games) => {
                assert(self.gpu_threads_per_device * self.gpu_batch_size <= (
                self.gpu_threads_per_device + 1) * self.gpu_batch_size) by (nonlinear_arith);
                Ok(self.gpu_threads_per_device * self.gpu_batch_size)
            },
            Err(e) => Err(e),
        }
    }
}

/// An accelerator pass, or the encoding or decoding around it, failed.
#[derive(Clone, Copy, Debug, PartialEq, Eq, Structural)]
pub struct InferenceFailure;

/// What an executor does when fewer requests are pending than a batch holds.
#[derive(Clone, Copy, Debug, PartialEq, Eq, Structural)]
pub enum BatchPolicy {
    /// It waits until a full batch is pending.
    WaitForFull,
    /// It runs the pending requests as an undersized batch at once.
    ServePartial,
}

impl BatchPolicy {
    /// The policy of a pipeline: undersized batches are served, so that no
    /// request waits without bound when few generators are active.
    pub open spec fn spec_chosen() -> BatchPolicy {
        BatchPolicy::ServePartial
    }

    /// The policy of a pipeline.
    #[verifier::when_used_as_spec(spec_chosen)]
    pub fn chosen() -> (policy: BatchPolicy)
        ensures
            policy == BatchPolicy::spec_chosen(),
    {
        BatchPolicy::ServePartial
    }
}

} // verus!
