use vstd::prelude::*;

verus! {

/// The outcome of one test.
pub enum TestVerdict {
    InQueue,
    Running,
    Ignored,
    Accepted,
    /// The score in ten-thousandths.
    PartialSolution(u64),
    Bug(String),
    WrongAnswer,
    RuntimeError(ExitStatus),
    TimeLimitExceeded,
    MemoryLimitExceeded,
    PresentationError,
    IdlenessLimitExceeded,
    CheckerFailed,
}

pub struct TestJudgementResult {
    pub verdict: TestVerdict,
    /// Logs by name.
    pub logs: Vec<(String, Vec<u8>)>,
    /// Statistics by block name.
    pub invocation_stats: Vec<(String, InvocationStat)>,
}

/// What a process used; times in nanoseconds, memory in bytes.
#[derive(Clone, Copy, Debug, PartialEq, Eq, Structural)]
pub struct InvocationStat {
    pub real_time: u64,
    pub cpu_time: u64,
    pub user_time: u64,
    pub sys_time: u64,
    pub memory: usize,
}

/// What a process may use; times in nanoseconds, memory in bytes.
#[derive(Clone, Copy, Debug, PartialEq, Eq, Structural)]
pub struct InvocationLimit {
    pub real_time: u64,
    pub cpu_time: u64,
    pub memory: usize,
}

#[derive(Clone, Copy, Debug, PartialEq, Eq, Structural)]
pub enum ExitStatus {
    ExitCode(u8),
    Signal(u8),
}

/// A terminal verdict other than `Accepted`.
pub open spec fn failing(v: TestVerdict) -> bool {
    !(v is InQueue || v is Running || v is Accepted)
}

impl TestVerdict {
    /// Whether the verdict is terminal and not `Accepted`: the tests that depend on this one
    /// are then ignored.
    pub fn is_failure(&self) -> (r: bool)
        ensures
            r == failing(*self),
    {
        match self {
            TestVerdict::InQueue | TestVerdict::Running | TestVerdict::Accepted => false,
            _ => true,
        }
    }
}

} // verus!
