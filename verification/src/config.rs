//! The configuration of a cluster member.

use vstd::prelude::*;
use vstd::string::StringExecFns;
use crate::node::Node;

verus! {

/// How many ring positions a member asks for where the configuration file
/// does not say.
pub fn default_virtual_nodes() -> (count: usize)
    ensures
        count == 10,
{
    10
}

/// The gossip interval in seconds where the configuration file does not say.
pub fn default_gossip_interval() -> (seconds: u64)
    ensures
        seconds == 1,
{
    1
}

/// The seconds after which a silent node counts as failed, where the
/// configuration file does not say.
pub fn default_node_timeout() -> (seconds: u64)
    ensures
        seconds == 10,
{
    10
}

/// How the cluster behaves.
#[derive(Debug, Clone)]
pub struct ClusterSettings {
    /// Addresses (`host:port`) to contact when starting.
    pub seeds: Vec<String>,
    /// Number of ring positions per member.
    pub virtual_nodes: usize,
    /// Gossip interval in seconds.
    pub gossip_interval: u64,
    /// Seconds after which a silent node counts as failed.
    pub node_timeout: u64,
}

impl Default for ClusterSettings {
    /// No seeds, and for each number what holds where the configuration file
    /// does not say: 10 virtual nodes, a gossip interval of 1 second and a
    /// node timeout of 10 seconds.
    fn default() -> (settings: ClusterSettings)
        ensures
            settings.seeds@.len() == 0,
            settings.virtual_nodes == 10,
            settings.gossip_interval == 1,
            settings.node_timeout == 10,
    {
        ClusterSettings {
            seeds: Vec::new(),
            virtual_nodes: default_virtual_nodes(),
            gossip_interval: default_gossip_interval(),
            node_timeout: default_node_timeout(),
        }
    }
}

/// The configuration of one member: itself, and how the cluster behaves.
#[derive(Debug, Clone)]
pub struct ClusterConfig {
    /// The local node.
    pub node: Node,
    /// The cluster settings.
    pub cluster: ClusterSettings,
}

impl Default for ClusterConfig {
    /// A node with a fresh id on the loopback address, cluster port 7946 and
    /// API port 3031, with the default settings.
    fn default() -> (config: ClusterConfig)
        ensures
            config.node.id@.len() == 36,
            config.node.host@ == "127.0.0.1"@,
            config.node.port == 7946,
            config.node.api_port == 3031,
            config.node@.metadata.len() == 0,
            config.node.has_distinct_metadata_keys(),
            config.cluster.seeds@.len() == 0,
            config.cluster.virtual_nodes == 10,
            config.cluster.gossip_interval == 1,
            config.cluster.node_timeout == 10,
    {
        ClusterConfig {
            node: Node::new(String::from_str("127.0.0.1"), 7946, 3031),
            cluster: ClusterSettings::default(),
        }
    }
}

} // verus!
