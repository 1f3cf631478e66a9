//! What can go wrong in the cluster layer.

use vstd::prelude::*;
use vstd::string::StringExecFns;

verus! {

/// Errors of cluster operations. Each carries the detail as text.
#[derive(Debug, Clone)]
pub enum ClusterError {
    /// The listener could not be started: the cluster cannot come up.
    InitializationError(String),
    /// A peer could not be joined.
    JoinError(String),
    /// A message could not be delivered to a peer.
    CommunicationError(String),
    /// The configuration is missing or malformed.
    ConfigurationError(String),
    /// No node of that id is known.
    NodeNotFound(String),
    /// The local store or its persistence failed.
    IoError(String),
}

/// Result type of cluster operations.
pub type ClusterResult<T> = Result<T, ClusterError>;

/// The text that introduces the detail of each kind of error.
pub open spec fn heading(error: ClusterError) -> Seq<char> {
    match error {
        ClusterError::InitializationError(_) => "Failed to initialize cluster: "@,
        ClusterError::JoinError(_) => "Failed to join cluster: "@,
        ClusterError::CommunicationError(_) => "Node communication error: "@,
        ClusterError::ConfigurationError(_) => "Configuration error: "@,
        ClusterError::NodeNotFound(_) => "Node not found: "@,
        ClusterError::IoError(_) => "I/O error: "@,
    }
}

impl ClusterError {
    /// The detail that the error carries.
    pub open spec fn detail(self) -> Seq<char> {
        match self {
            ClusterError::InitializationError(d) => d@,
            ClusterError::JoinError(d) => d@,
            ClusterError::CommunicationError(d) => d@,
            ClusterError::ConfigurationError(d) => d@,
            ClusterError::NodeNotFound(d) => d@,
            ClusterError::IoError(d) => d@,
        }
    }

    /// The error as a line of text: its heading, then its detail.
    pub fn message(&self) -> (text: String)
        ensures
            text@ == heading(*self) + self.detail(),
    {
        let (head, detail) = match self {
            ClusterError::InitializationError(d) => ("Failed to initialize cluster: ", d),
            ClusterError::JoinError(d) => ("Failed to join cluster: ", d),
            ClusterError::CommunicationError(d) => ("Node communication error: ", d),
            ClusterError::ConfigurationError(d) => ("Configuration error: ", d),
            ClusterError::NodeNotFound(d) => ("Node not found: ", d),
            ClusterError::IoError(d) => ("I/O error: ", d),
        };
        let mut text = String::from_str(head);
        text.append(detail.as_str());
        text
    }

    /// Whether the cluster can go on after this error: only a failed start
    /// cannot be worked around by serving locally.
    pub fn is_fatal(&self) -> (fatal: bool)
        ensures
            fatal == (*self is InitializationError),
    {
        match self {
            ClusterError::InitializationError(_) => true,
            _ => false,
        }
    }
}

} // verus!
