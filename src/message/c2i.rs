use vstd::prelude::*;
use crate::verdict::InvocationLimit;

verus! {

/// A message from the conductor to an invoker.
pub enum Message {
    AddSubmission(AddSubmission),
    PushToJudgementQueue(PushToJudgementQueue),
    CancelJudgementOnTests(CancelJudgementOnTests),
    FinalizeSubmission(FinalizeSubmission),
    SupplyFile(SupplyFile),
}

pub struct AddSubmission {
    pub compilation_core: u64,
    pub submission_id: String,
    pub problem_id: String,
    pub revision_id: String,
    /// Source files by name.
    pub files: Vec<(String, Vec<u8>)>,
    pub language: String,
    /// Limits by block name.
    pub invocation_limits: Vec<(String, InvocationLimit)>,
}

pub struct PushToJudgementQueue {
    pub core: u64,
    pub submission_id: String,
    pub tests: Vec<u64>,
}

pub struct CancelJudgementOnTests {
    pub submission_id: String,
    pub failed_tests: Vec<u64>,
}

pub struct FinalizeSubmission {
    pub submission_id: String,
}

pub struct SupplyFile {
    pub request_id: u64,
    pub contents: Vec<u8>,
}

} // verus!
