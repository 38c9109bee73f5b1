//! Messages exchanged between the core, the sources of build requests and the executors.
use vstd::prelude::*;

verus! {

/// One job of a repository: a container image and the shell steps run in it.
#[derive(Debug, Clone, PartialEq, Eq)]
pub struct JobConfig {
    pub id: String,
    pub name: String,
    pub image: String,
    pub steps: Vec<String>,
}

/// The configuration a repository declares: its jobs.
#[derive(Debug, Clone, PartialEq, Eq)]
pub struct RepositoryConfig {
    pub id: String,
    pub jobs: Vec<JobConfig>,
}

/// A request to build a given reference of a repository.
#[derive(Debug, Clone, PartialEq, Eq)]
pub struct BuildRequestFromRepo {
    pub repo_url: String,
    pub reference: String,
    pub repo_config: RepositoryConfig,
}

/// What a source of jobs (web UI, web hook, repository watcher) sends to the core.
#[derive(Debug, Clone, PartialEq, Eq)]
pub enum IncomingMessage {
    BuildRequestFromRepo(BuildRequestFromRepo),
}

/// What an executor reports about itself.
#[derive(Debug, Clone, Copy, PartialEq, Eq, Structural)]
pub enum ExecutorStatus {
    YetToRegister,
    Available,
    Busy,
}

/// The outcome of a job, as an executor reports it.
#[derive(Debug, Clone, PartialEq, Eq)]
pub struct JobResult {
    pub job_id: String,
    pub success: bool,
}

/// The messages of the executor protocol, in both directions.
#[derive(Debug, Clone, PartialEq, Eq)]
pub enum ExecutorMessage {
    /// executor to core: a new executor asks to be registered
    ExecutorRegister,
    /// core to executor: the id given to a newly registered executor
    ExecutorRegisterResponse { id: String },
    /// core to executor: asks the executor for its status
    ExecutorStatusQuery,
    /// executor to core: the answer to a status query
    ExecutorStatusResponse(ExecutorStatus),
    /// core to executor: a job to run
    BuildRequest(BuildRequestFromRepo),
    /// executor to core: the outcome of a job
    JobResult(JobResult),
    /// either way: the connection is about to be closed
    CloseConnection(String),
}

impl ExecutorMessage {
    /// The messages that the core itself queues for an executor.
    pub open spec fn is_sent_by_core(self) -> bool {
        ||| self is ExecutorRegisterResponse
        ||| self is ExecutorStatusQuery
        ||| self is BuildRequest
    }

    /// The messages that the core accepts from an executor.
    pub open spec fn is_sent_by_executor(self) -> bool {
        ||| self is ExecutorRegister
        ||| self is ExecutorStatusResponse
        ||| self is JobResult
        ||| self is CloseConnection
    }

    /// Tells whether the core accepts this message from an executor.
    pub fn is_from_executor(&self) -> (b: bool)
        ensures
            b == self.is_sent_by_executor(),
    {
        match self {
            ExecutorMessage::ExecutorRegister => true,
            ExecutorMessage::ExecutorStatusResponse(_) => true,
            ExecutorMessage::JobResult(_) => true,
            ExecutorMessage::CloseConnection(_) => true,
            _ => false,
        }
    }

    /// Tells whether the core may write this message to an executor.
    pub fn is_writable_to_executor(&self) -> (b: bool)
        ensures
            b == (self.is_sent_by_core() || self is CloseConnection),
    {
        match self {
            ExecutorMessage::ExecutorRegisterResponse { .. } => true,
            ExecutorMessage::ExecutorStatusQuery => true,
            ExecutorMessage::BuildRequest(_) => true,
            ExecutorMessage::CloseConnection(_) => true,
            _ => false,
        }
    }
}

} // verus!
