use fastbu::cluster::{
    communication_error, ClusterNode, Delivery, FastbuCluster, Inbound, Phase, SendFailure, ACK,
};
use fastbu::config::{
    default_gossip_interval, default_node_timeout, default_virtual_nodes, ClusterConfig,
    ClusterSettings,
};
use fastbu::error::ClusterError;
use fastbu::message::ClusterMessage;
use fastbu::node::Node;

fn config(id: &str, host: &str, virtual_nodes: usize, seeds: &[&str]) -> ClusterConfig {
    ClusterConfig {
        node: Node::with_id(id.to_string(), host.to_string(), 7946, 3031),
        cluster: ClusterSettings {
            seeds: seeds.iter().map(|s| s.to_string()).collect(),
            virtual_nodes,
            gossip_interval: default_gossip_interval(),
            node_timeout: default_node_timeout(),
        },
    }
}

fn peer(id: &str, host: &str) -> Node {
    Node::with_id(id.to_string(), host.to_string(), 7946, 3031)
}

#[test]
fn test_cluster_config_default() {
    let config = ClusterConfig::default();

    // Default values should be set
    assert!(!config.node.id.is_empty(), "Node ID should be set");
    assert_eq!(config.node.host, "127.0.0.1");
    assert!(config.node.port > 0, "Port should be set");
}

#[test]
fn cluster_config_default_values() {
    let config = ClusterConfig::default();
    assert_eq!(config.node.port, 7946);
    assert_eq!(config.node.api_port, 3031);
    assert!(config.node.metadata.is_empty());
    assert!(config.cluster.seeds.is_empty());
    assert_eq!(config.cluster.virtual_nodes, 10);
    assert_eq!(config.cluster.gossip_interval, 1);
    assert_eq!(config.cluster.node_timeout, 10);
    let settings = ClusterSettings::default();
    assert!(settings.seeds.is_empty());
    assert_eq!(settings.virtual_nodes, default_virtual_nodes());
    assert_eq!(settings.gossip_interval, default_gossip_interval());
    assert_eq!(settings.node_timeout, default_node_timeout());
}

#[test]
fn cluster_settings_file_defaults() {
    assert_eq!(default_virtual_nodes(), 10);
    assert_eq!(default_gossip_interval(), 1);
    assert_eq!(default_node_timeout(), 10);
}

#[test]
fn cluster_new_knows_only_itself() {
    let cluster = FastbuCluster::new(config("node-a", "10.0.0.1", 4, &["10.0.0.2:7946"]));
    assert_eq!(cluster.phase(), Phase::Uninitialized);
    assert!(cluster.get_peers().is_empty());
    let nodes = cluster.get_nodes();
    assert_eq!(nodes.len(), 1);
    assert_eq!(nodes[0].id, "node-a");
    assert_eq!(cluster.local_node().id, "node-a");
    assert_eq!(cluster.get_config().cluster.virtual_nodes, 4);
    assert_eq!(cluster.get_responsible_node("any key").unwrap().id, "node-a");
}

#[test]
fn cluster_add_peer_keeps_each_address_once() {
    let mut cluster = FastbuCluster::new(config("node-a", "10.0.0.1", 4, &[]));
    cluster.add_peer("10.0.0.2:7946".to_string());
    cluster.add_peer("10.0.0.3:7946".to_string());
    cluster.add_peer("10.0.0.2:7946".to_string());
    assert_eq!(cluster.get_peers(), vec!["10.0.0.2:7946", "10.0.0.3:7946"]);
}

#[test]
fn cluster_initialize_without_seeds_succeeds() {
    let mut cluster = FastbuCluster::new(config("node-a", "10.0.0.1", 4, &[]));
    let contacts = cluster.initialize(Ok(())).unwrap();
    assert!(contacts.is_empty());
    assert_eq!(cluster.phase(), Phase::Initializing);
    assert!(cluster.finish_initialize().is_ok());
    assert_eq!(cluster.phase(), Phase::Active);
    assert_eq!(cluster.get_nodes().len(), 1);
}

#[test]
fn cluster_initialize_contacts_each_seed_once() {
    let mut cluster = FastbuCluster::new(config(
        "node-a",
        "10.0.0.1",
        4,
        &["10.0.0.2:7946", "10.0.0.3:7946", "10.0.0.2:7946"],
    ));
    cluster.add_peer("10.0.0.9:7946".to_string());
    let contacts = cluster.initialize(Ok(())).unwrap();
    assert_eq!(contacts, vec!["10.0.0.9:7946", "10.0.0.2:7946", "10.0.0.3:7946"]);
    assert_eq!(cluster.get_peers(), contacts);
}

#[test]
fn cluster_initialize_survives_unreachable_peers() {
    let mut cluster =
        FastbuCluster::new(config("node-a", "10.0.0.1", 4, &["10.0.0.2:7946", "10.0.0.3:7946"]));
    let contacts = cluster.initialize(Ok(())).unwrap();
    assert_eq!(contacts.len(), 2);
    assert!(!cluster.handshake_outcome(None));
    assert!(cluster.handshake_outcome(Some(peer("node-c", "10.0.0.3"))));
    assert!(cluster.finish_initialize().is_ok());
    assert_eq!(cluster.phase(), Phase::Active);
    let ids: Vec<String> = cluster.get_nodes().into_iter().map(|n| n.id).collect();
    assert_eq!(ids, vec!["node-a", "node-c"]);
}

#[test]
fn cluster_initialize_fails_when_the_listener_does() {
    let mut cluster = FastbuCluster::new(config("node-a", "10.0.0.1", 4, &["10.0.0.2:7946"]));
    let error = cluster.initialize(Err("address in use".to_string())).unwrap_err();
    assert!(matches!(error, ClusterError::InitializationError(_)));
    assert!(error.is_fatal());
    assert_eq!(
        error.message(),
        "Failed to initialize cluster: Failed to start message listener on 10.0.0.1:7946: address in use"
    );
    assert_eq!(cluster.phase(), Phase::Uninitialized);
    assert!(cluster.get_peers().is_empty());
}

#[test]
fn cluster_join_and_leave_change_ring_and_registry_together() {
    let mut cluster = FastbuCluster::new(config("node-a", "10.0.0.1", 4, &[]));
    assert!(cluster.handle_node_joined(&peer("node-b", "10.0.0.2")).is_ok());
    assert_eq!(cluster.get_nodes().len(), 2);
    assert_eq!(cluster.get_responsible_node("alpha").unwrap().id, "node-b");
    assert_eq!(cluster.get_responsible_node("beta").unwrap().id, "node-a");
    assert!(cluster.handle_node_left(&peer("node-b", "10.0.0.2")).is_ok());
    assert_eq!(cluster.get_nodes().len(), 1);
    assert_eq!(cluster.get_responsible_node("alpha").unwrap().id, "node-a");
}

#[test]
fn cluster_local_node_does_not_leave() {
    let mut cluster = FastbuCluster::new(config("node-a", "10.0.0.1", 4, &[]));
    assert!(cluster.handle_node_left(&peer("node-a", "10.0.0.1")).is_ok());
    assert_eq!(cluster.get_nodes().len(), 1);
    assert_eq!(cluster.get_responsible_node("alpha").unwrap().id, "node-a");
}

#[test]
fn cluster_leave_of_a_stranger_changes_nothing() {
    let mut cluster = FastbuCluster::new(config("node-a", "10.0.0.1", 4, &[]));
    assert!(cluster.handle_node_left(&peer("node-x", "10.0.0.7")).is_ok());
    assert_eq!(cluster.get_nodes().len(), 1);
}

#[test]
fn cluster_send_message_is_local_for_the_local_node_only() {
    let cluster = FastbuCluster::new(config("node-a", "10.0.0.1", 4, &[]));
    match cluster.send_message(&peer("node-a", "10.0.0.1"), ClusterMessage::Ping) {
        Delivery::Local { sender, message } => {
            assert_eq!(sender.id, "node-a");
            assert!(matches!(message, ClusterMessage::Ping));
        }
        other => panic!("unexpected {:?}", other),
    }
    assert!(cluster.is_local(&peer("node-a", "10.0.0.1")));
    match cluster.send_message(
        &peer("node-b", "10.0.0.2"),
        ClusterMessage::FetchRequest { key: "k".to_string() },
    ) {
        Delivery::Remote { address, message } => {
            assert_eq!(address, "10.0.0.2:7946");
            assert!(matches!(message, ClusterMessage::FetchRequest { key } if key == "k"));
        }
        other => panic!("unexpected {:?}", other),
    }
    assert!(matches!(
        cluster.send_message(&peer("node-a", "10.0.0.2"), ClusterMessage::Pong),
        Delivery::Remote { .. }
    ));
}

#[test]
fn cluster_send_failures_are_communication_errors() {
    let node = peer("node-b", "10.0.0.2");
    let cases = [
        (SendFailure::Serialize("too big".to_string()), "Failed to serialize message: too big"),
        (
            SendFailure::Connect("connection refused".to_string()),
            "Failed to connect to node node-b: connection refused",
        ),
        (SendFailure::SendLength("broken pipe".to_string()), "Failed to send message length: broken pipe"),
        (SendFailure::SendData("broken pipe".to_string()), "Failed to send message data: broken pipe"),
        (
            SendFailure::Acknowledge("timed out".to_string()),
            "Failed to receive acknowledgment: timed out",
        ),
    ];
    for (failure, detail) in cases {
        let error = communication_error(&node, &failure);
        assert!(!error.is_fatal());
        match &error {
            ClusterError::CommunicationError(text) => assert_eq!(text, detail),
            other => panic!("unexpected error {:?}", other),
        }
        assert_eq!(error.message(), format!("Node communication error: {}", detail));
    }
}

#[test]
fn cluster_error_messages() {
    let text = "detail".to_string();
    assert_eq!(
        ClusterError::InitializationError(text.clone()).message(),
        "Failed to initialize cluster: detail"
    );
    assert_eq!(ClusterError::JoinError(text.clone()).message(), "Failed to join cluster: detail");
    assert_eq!(
        ClusterError::CommunicationError(text.clone()).message(),
        "Node communication error: detail"
    );
    assert_eq!(
        ClusterError::ConfigurationError(text.clone()).message(),
        "Configuration error: detail"
    );
    assert_eq!(ClusterError::NodeNotFound(text.clone()).message(), "Node not found: detail");
    assert_eq!(ClusterError::IoError(text).message(), "I/O error: detail");
    assert!(!ClusterError::JoinError(String::new()).is_fatal());
    assert!(!ClusterError::IoError(String::new()).is_fatal());
}

#[test]
fn cluster_frame_with_a_node_is_a_handshake() {
    let mut cluster = FastbuCluster::new(config("node-a", "10.0.0.1", 4, &[]));
    let inbound = cluster.accept_frame(
        Some(peer("node-b", "10.0.0.2")),
        Some(ClusterMessage::Ping),
        "10.0.0.2".to_string(),
        50123,
    );
    match inbound {
        Inbound::Handshake { reply } => {
            assert_eq!(reply.id, "node-a");
            assert_eq!(reply.host, "10.0.0.1");
        }
        other => panic!("unexpected {:?}", other),
    }
    let ids: Vec<String> = cluster.get_nodes().into_iter().map(|n| n.id).collect();
    assert_eq!(ids, vec!["node-a", "node-b"]);
    assert_eq!(cluster.get_responsible_node("alpha").unwrap().id, "node-b");
}

#[test]
fn cluster_frame_with_a_message_goes_to_the_processor() {
    let mut cluster = FastbuCluster::new(config("node-a", "10.0.0.1", 4, &[]));
    let _ = cluster.handle_node_joined(&peer("node-b", "10.0.0.2"));
    let inbound = cluster.accept_frame(
        None,
        Some(ClusterMessage::KeyInvalidated { key: "k".to_string() }),
        "10.0.0.2".to_string(),
        7946,
    );
    match inbound {
        Inbound::Message { sender, message } => {
            assert_eq!(sender.id, "node-b");
            assert!(matches!(message, ClusterMessage::KeyInvalidated { key } if key == "k"));
        }
        other => panic!("unexpected {:?}", other),
    }
    assert_eq!(cluster.get_nodes().len(), 2);
    assert_eq!(ACK, 1);
}

#[test]
fn cluster_message_from_a_stranger_gets_a_placeholder_sender() {
    let mut cluster = FastbuCluster::new(config("node-a", "10.0.0.1", 4, &[]));
    let inbound =
        cluster.accept_frame(None, Some(ClusterMessage::Ping), "192.168.1.9".to_string(), 40000);
    match inbound {
        Inbound::Message { sender, message } => {
            assert_eq!(sender.host, "192.168.1.9");
            assert_eq!(sender.port, 40000);
            assert_eq!(sender.api_port, 0);
            assert_eq!(sender.id.len(), 36);
            assert!(matches!(message, ClusterMessage::Ping));
        }
        other => panic!("unexpected {:?}", other),
    }
    assert_eq!(cluster.get_nodes().len(), 1);
}

#[test]
fn cluster_frame_that_is_neither_is_unreadable() {
    let mut cluster = FastbuCluster::new(config("node-a", "10.0.0.1", 4, &[]));
    let inbound = cluster.accept_frame(None, None, "10.0.0.2".to_string(), 7946);
    assert!(matches!(inbound, Inbound::Unreadable));
    assert_eq!(cluster.get_nodes().len(), 1);
}

const KEYS: [&str; 8] =
    ["alpha", "beta", "gamma", "delta", "local-test-key", "mykey", "user:42", ""];

#[test]
fn cluster_new_owns_every_key_whatever_the_number_of_virtual_nodes() {
    for virtual_nodes in [0usize, 1, 4, 10] {
        let cluster = FastbuCluster::new(config("node-a", "10.0.0.1", virtual_nodes, &[]));
        for key in KEYS {
            assert_eq!(cluster.get_responsible_node(key).unwrap().id, "node-a");
        }
    }
}

#[test]
fn cluster_with_the_default_configuration_owns_every_key() {
    let config = ClusterConfig::default();
    let id = config.node.id.clone();
    let mut cluster = FastbuCluster::new(config);
    assert!(cluster.initialize(Ok(())).unwrap().is_empty());
    assert!(cluster.finish_initialize().is_ok());
    let nodes = cluster.get_nodes();
    assert_eq!(nodes.len(), 1);
    assert_eq!(nodes[0].id, id);
    for key in KEYS {
        assert_eq!(cluster.get_responsible_node(key).unwrap().id, id);
    }
    assert!(cluster.get_peers().is_empty());
}

#[test]
fn cluster_with_zero_virtual_nodes_shares_keys_with_a_peer() {
    let mut cluster = FastbuCluster::new(config("node-a", "10.0.0.1", 0, &[]));
    assert!(cluster.handle_node_joined(&peer("node-b", "10.0.0.2")).is_ok());
    assert!(cluster.handle_node_joined(&peer("node-c", "10.0.0.3")).is_ok());
    let expected = ["node-c", "node-a", "node-b", "node-b", "node-b", "node-b", "node-b", "node-b"];
    for (key, owner) in KEYS.iter().zip(expected) {
        assert_eq!(cluster.get_responsible_node(key).unwrap().id, owner, "key {:?}", key);
    }
}

#[test]
fn cluster_starts_once() {
    let mut cluster = FastbuCluster::new(config("node-a", "10.0.0.1", 4, &["10.0.0.2:7946"]));
    assert!(cluster.initialize(Ok(())).is_ok());
    let again = cluster.initialize(Ok(())).unwrap_err();
    assert!(matches!(&again, ClusterError::InitializationError(text)
        if text == "The node has been started already"));
    assert_eq!(cluster.phase(), Phase::Initializing);
    assert_eq!(cluster.get_peers(), vec!["10.0.0.2:7946"]);
    assert!(cluster.finish_initialize().is_ok());
    assert!(cluster.initialize(Ok(())).is_err());
    assert_eq!(cluster.phase(), Phase::Active);
}

#[test]
fn cluster_becomes_active_only_from_initializing() {
    let mut cluster = FastbuCluster::new(config("node-a", "10.0.0.1", 4, &[]));
    let early = cluster.finish_initialize().unwrap_err();
    assert!(matches!(&early, ClusterError::InitializationError(text)
        if text == "The node is not initializing"));
    assert_eq!(cluster.phase(), Phase::Uninitialized);
    assert!(cluster.initialize(Ok(())).is_ok());
    assert!(cluster.finish_initialize().is_ok());
    assert_eq!(cluster.phase(), Phase::Active);
    assert!(cluster.finish_initialize().is_err());
    assert_eq!(cluster.phase(), Phase::Active);
}

#[test]
fn cluster_handshakes_count_only_while_initializing() {
    let mut cluster = FastbuCluster::new(config("node-a", "10.0.0.1", 4, &[]));
    assert!(!cluster.handshake_outcome(Some(peer("node-b", "10.0.0.2"))));
    assert_eq!(cluster.get_nodes().len(), 1);
    assert!(cluster.initialize(Ok(())).is_ok());
    assert!(cluster.handshake_outcome(Some(peer("node-b", "10.0.0.2"))));
    assert_eq!(cluster.get_nodes().len(), 2);
    assert!(cluster.finish_initialize().is_ok());
    assert!(!cluster.handshake_outcome(Some(peer("node-c", "10.0.0.3"))));
    assert_eq!(cluster.get_nodes().len(), 2);
}

#[test]
fn cluster_refuses_a_node_that_claims_the_local_id() {
    let mut cluster = FastbuCluster::new(config("node-a", "10.0.0.1", 4, &[]));
    let error = cluster.handle_node_joined(&peer("node-a", "10.0.0.66")).unwrap_err();
    assert!(matches!(&error, ClusterError::JoinError(text)
        if text == "Node id is that of the local node: node-a"));
    assert!(!error.is_fatal());
    let nodes = cluster.get_nodes();
    assert_eq!(nodes.len(), 1);
    assert_eq!(nodes[0].host, "10.0.0.1");
    assert!(cluster.handle_node_joined(&peer("node-a", "10.0.0.1")).is_ok());
    assert_eq!(cluster.get_nodes().len(), 1);
}

#[test]
fn cluster_node_that_comes_back_elsewhere_takes_the_place_of_its_id() {
    let mut cluster = FastbuCluster::new(config("node-a", "10.0.0.1", 4, &[]));
    assert!(cluster.handle_node_joined(&peer("node-b", "10.0.0.2")).is_ok());
    assert!(cluster.handle_node_joined(&peer("node-b", "10.0.0.22")).is_ok());
    let nodes = cluster.get_nodes();
    assert_eq!(nodes.len(), 2);
    assert_eq!(nodes[0].id, "node-a");
    assert_eq!(nodes[1].id, "node-b");
    assert_eq!(nodes[1].host, "10.0.0.22");
    for key in KEYS {
        let owner = cluster.get_responsible_node(key).unwrap();
        assert!(owner.host == "10.0.0.1" || owner.host == "10.0.0.22");
    }
    assert!(cluster.handle_node_left(&peer("node-b", "10.0.0.22")).is_ok());
    let ids: Vec<String> = cluster.get_nodes().into_iter().map(|n| n.id).collect();
    assert_eq!(ids, vec!["node-a"]);
    for key in KEYS {
        assert_eq!(cluster.get_responsible_node(key).unwrap().id, "node-a");
    }
}
