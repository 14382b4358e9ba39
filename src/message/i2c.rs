use vstd::prelude::*;
use crate::errors::Error;
use crate::verdict::TestJudgementResult;

verus! {

/// A message from an invoker to the conductor.
pub enum Message {
    Handshake(Handshake),
    UpdateMode(UpdateMode),
    NotifyCompilationStatus(NotifyCompilationStatus),
    NotifyTestStatus(NotifyTestStatus),
    NotifySubmissionError(NotifySubmissionError),
    RequestFile(RequestFile),
}

pub struct Handshake {
    pub invoker_name: String,
}

pub struct UpdateMode {
    pub added_cores: Vec<u64>,
    pub removed_cores: Vec<u64>,
    pub designated_ram: u64,
}

pub struct NotifyCompilationStatus {
    pub submission_id: String,
    /// The compiled package's name, or why compilation failed.
    pub result: Result<String, Error>,
}

pub struct NotifyTestStatus {
    pub submission_id: String,
    pub test: u64,
    pub judgement_result: TestJudgementResult,
}

pub struct NotifySubmissionError {
    pub submission_id: String,
    pub error: Error,
}

pub struct RequestFile {
    pub request_id: u64,
    pub hash: String,
}

} // verus!
