use vstd::prelude::*;

verus! {

/// The conductor's configuration file.
pub struct Config {
    pub listen: ListenConfig,
    pub data: DataConfig,
}

pub struct ListenConfig {
    /// The address on which invokers connect.
    pub invokers: String,
}

pub struct DataConfig {
    /// The directory of problems.
    pub problems: String,
}

/// The command line: the path of the configuration file.
pub struct CLIArgs {
    pub config: String,
}

} // verus!
