//! What the members of a cluster say to each other.

use vstd::prelude::*;

verus! {

/// A stored value as it travels between nodes.
#[derive(Debug, Clone)]
pub struct CacheEntry {
    /// The value itself.
    pub value: String,
}

impl View for CacheEntry {
    type V = Seq<char>;

    open spec fn view(&self) -> Seq<char> {
        self.value@
    }
}

impl CacheEntry {
    /// An entry that holds `value`.
    pub fn new(value: String) -> (entry: CacheEntry)
        ensures
            entry@ == value@,
    {
        CacheEntry { value }
    }

    /// A copy of this entry.
    pub fn duplicate(&self) -> (copy: CacheEntry)
        ensures
            copy@ == self@,
    {
        CacheEntry { value: self.value.clone() }
    }
}

/// The mathematical value of a [`ClusterMessage`].
#[allow(inconsistent_fields)]
pub enum MessageView {
    Ping,
    Pong,
    FetchRequest { key: Seq<char> },
    FetchResponse { key: Seq<char>, value: Option<Seq<char>> },
    KeyUpdated { key: Seq<char>, value: Seq<char> },
    KeyInvalidated { key: Seq<char> },
}

/// A message from one node to another.
#[derive(Debug, Clone)]
#[allow(inconsistent_fields)]
pub enum ClusterMessage {
    /// Asks whether a node is alive.
    Ping,
    /// Answers a ping.
    Pong,
    /// Asks for the value of a key.
    FetchRequest { key: String },
    /// Answers a fetch request; no value where the key is unknown.
    FetchResponse { key: String, value: Option<CacheEntry> },
    /// Says that a key has a new value.
    KeyUpdated { key: String, value: CacheEntry },
    /// Says that a key is no longer valid.
    KeyInvalidated { key: String },
}

impl View for ClusterMessage {
    type V = MessageView;

    open spec fn view(&self) -> MessageView {
        match self {
            ClusterMessage::Ping => MessageView::Ping,
            ClusterMessage::Pong => MessageView::Pong,
            ClusterMessage::FetchRequest { key } => MessageView::FetchRequest { key: key@ },
            ClusterMessage::FetchResponse { key, value } => MessageView::FetchResponse {
                key: key@,
                value: match value {
                    Some(entry) => Some(entry@),
                    None => None,
                },
            },
            ClusterMessage::KeyUpdated { key, value } => MessageView::KeyUpdated {
                key: key@,
                value: value@,
            },
            ClusterMessage::KeyInvalidated { key } => MessageView::KeyInvalidated { key: key@ },
        }
    }
}

impl ClusterMessage {
    /// A copy of this message.
    pub fn duplicate(&self) -> (copy: ClusterMessage)
        ensures
            copy@ == self@,
    {
        match self {
            ClusterMessage::Ping => ClusterMessage::Ping,
            ClusterMessage::Pong => ClusterMessage::Pong,
            ClusterMessage::FetchRequest { key } => ClusterMessage::FetchRequest {
                key: key.clone(),
            },
            ClusterMessage::FetchResponse { key, value } => ClusterMessage::FetchResponse {
                key: key.clone(),
                value: match value {
                    Some(entry) => Some(entry.duplicate()),
                    None => None,
                },
            },
            ClusterMessage::KeyUpdated { key, value } => ClusterMessage::KeyUpdated {
                key: key.clone(),
                value: value.duplicate(),
            },
            ClusterMessage::KeyInvalidated { key } => ClusterMessage::KeyInvalidated {
                key: key.clone(),
            },
        }
    }
}

} // verus!
