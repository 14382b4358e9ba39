use vstd::prelude::*;

verus! {

/// The five kinds of failure that the conductor distinguishes.
#[derive(Clone, Debug)]
pub enum Error {
    InvokerFailure(String),
    ConductorFailure(String),
    ConfigurationFailure(String),
    CommunicationError(String),
    UserFailure(String),
}

impl Error {
    /// A readable rendering of the error: its kind and its message.
    pub fn describe(&self) -> String {
        let (kind, msg) = match self {
            Error::InvokerFailure(m) => ("InvokerFailure", m),
            Error::ConductorFailure(m) => ("ConductorFailure", m),
            Error::ConfigurationFailure(m) => ("ConfigurationFailure", m),
            Error::CommunicationError(m) => ("CommunicationError", m),
            Error::UserFailure(m) => ("UserFailure", m),
        };
        let mut r = kind.to_string();
        r.append(": ");
        r.append(msg.as_str());
        r
    }
}

/// A configuration failure with the given message.
pub fn configuration_failure(msg: &str) -> (r: Error)
    ensures
        r is ConfigurationFailure,
{
    Error::ConfigurationFailure(msg.to_string())
}

/// A communication error with the given message.
pub fn communication_error(msg: &str) -> (r: Error)
    ensures
        r is CommunicationError,
{
    Error::CommunicationError(msg.to_string())
}

} // verus!
