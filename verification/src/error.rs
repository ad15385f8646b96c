//! Error kinds observable at the fleet controller.

use vstd::prelude::*;
use vstd::string::StringExecFns;

verus! {

/// What can go wrong while a connection is refreshed or a configuration is
/// turned into node descriptors.
#[derive(Debug)]
pub enum Error {
    /// A call to the upstream node failed.
    Rpc,
    /// The connection counts of the node could not be read.
    Metrics,
    /// The node reports that it is not synced.
    Sync,
    /// The sync state of the node could not be read.
    Status,
    /// The transport of a node has no encoding that a connection can use.
    ConnectionProtocolEncoding,
    /// The configuration is not acceptable; the text says why.
    Config(String),
    /// Neither a bundled nor a global configuration is available.
    LocalConfigNotFound,
}

/// The mathematical value of an [`Error`].
pub enum ErrorView {
    Rpc,
    Metrics,
    Sync,
    Status,
    ConnectionProtocolEncoding,
    Config(Seq<char>),
    LocalConfigNotFound,
}

impl View for Error {
    type V = ErrorView;

    open spec fn view(&self) -> ErrorView {
        match self {
            Error::Rpc => ErrorView::Rpc,
            Error::Metrics => ErrorView::Metrics,
            Error::Sync => ErrorView::Sync,
            Error::Status => ErrorView::Status,
            Error::ConnectionProtocolEncoding => ErrorView::ConnectionProtocolEncoding,
            Error::Config(s) => ErrorView::Config(s@),
            Error::LocalConfigNotFound => ErrorView::LocalConfigNotFound,
        }
    }
}

impl ErrorView {
    /// The message shown for the error.
    pub open spec fn message(self) -> Seq<char> {
        match self {
            ErrorView::Rpc => "RPC error"@,
            ErrorView::Metrics => "Metrics"@,
            ErrorView::Sync => "Sync"@,
            ErrorView::Status => "Status"@,
            ErrorView::ConnectionProtocolEncoding => "Incompatible connection protocol encoding"@,
            ErrorView::Config(_) => "Configuration error"@,
            ErrorView::LocalConfigNotFound => "Could not locate local config"@,
        }
    }
}

impl Error {
    /// A configuration error with the given explanation.
    pub fn config(msg: &str) -> (e: Error)
        ensures
            e@ == ErrorView::Config(msg@),
    {
        Error::Config(String::from_str(msg))
    }

    /// Returns the message shown for the error.
    pub fn to_string(&self) -> (s: String)
        ensures
            s@ == self@.message(),
    {
        match self {
            Error::Rpc => String::from_str("RPC error"),
            Error::Metrics => String::from_str("Metrics"),
            Error::Sync => String::from_str("Sync"),
            Error::Status => String::from_str("Status"),
            Error::ConnectionProtocolEncoding => String::from_str(
                "Incompatible connection protocol encoding",
            ),
            Error::Config(_) => String::from_str("Configuration error"),
            Error::LocalConfigNotFound => String::from_str("Could not locate local config"),
        }
    }
}

} // verus!
