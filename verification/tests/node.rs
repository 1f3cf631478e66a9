use fastbu::node::Node;

#[test]
fn test_node_creation() {
    let node = Node::new("localhost".to_string(), 8001, 3031);

    // Check that node ID is created (UUID)
    assert!(!node.id.is_empty(), "Node should have a valid ID");

    // Check node properties
    assert_eq!(node.host, "localhost");
    assert_eq!(node.port, 8001);
    assert_eq!(node.api_port, 3031);

    // Empty metadata map
    assert!(node.metadata.is_empty());
}

#[test]
fn test_node_with_id() {
    let id = "test-node-123";
    let node = Node::with_id(id.to_string(), "127.0.0.1".to_string(), 8002, 3032);

    // Check that node ID is set correctly
    assert_eq!(node.id, id);

    // Check node properties
    assert_eq!(node.host, "127.0.0.1");
    assert_eq!(node.port, 8002);
    assert_eq!(node.api_port, 3032);
}

#[test]
fn test_node_addr() {
    let node = Node::new("127.0.0.1".to_string(), 8001, 3031);

    let addr = node.addr();
    assert_eq!(addr, "127.0.0.1:8001");
    let (ip, port) = addr.rsplit_once(':').unwrap();
    assert_eq!(ip, "127.0.0.1");
    assert_eq!(port, "8001");
}

#[test]
fn node_api_addr_uses_the_api_port() {
    let node = Node::with_id("n".to_string(), "10.1.2.3".to_string(), 7946, 3031);
    assert_eq!(node.api_addr(), "10.1.2.3:3031");
}

#[test]
fn node_addr_formats_every_width_of_port() {
    for (port, text) in [
        (0u16, "h:0"),
        (7, "h:7"),
        (10, "h:10"),
        (99, "h:99"),
        (100, "h:100"),
        (808, "h:808"),
        (1000, "h:1000"),
        (9009, "h:9009"),
        (10000, "h:10000"),
        (60001, "h:60001"),
        (65535, "h:65535"),
    ] {
        let node = Node::with_id("n".to_string(), "h".to_string(), port, port);
        assert_eq!(node.addr(), text);
        assert_eq!(node.api_addr(), text);
    }
}

#[test]
fn node_new_gives_a_fresh_id_each_time() {
    let a = Node::new("127.0.0.1".to_string(), 1, 2);
    let b = Node::new("127.0.0.1".to_string(), 1, 2);
    assert_eq!(a.id.chars().count(), 36);
    assert_eq!(b.id.chars().count(), 36);
    assert_ne!(a.id, b.id);
    assert_ne!(a.id, "127.0.0.1");
}

#[test]
fn node_equality_ignores_metadata() {
    let a = Node::with_id("n1".to_string(), "h".to_string(), 1, 2);
    let mut b = Node::with_id("n1".to_string(), "h".to_string(), 1, 2);
    b.metadata.push(("zone".to_string(), "eu".to_string()));
    assert!(a == b);
    assert!(a.same_identity(&b));
}

#[test]
fn node_equality_sees_each_part_of_the_identity() {
    let a = Node::with_id("n1".to_string(), "h".to_string(), 1, 2);
    assert!(a != Node::with_id("n2".to_string(), "h".to_string(), 1, 2));
    assert!(a != Node::with_id("n1".to_string(), "g".to_string(), 1, 2));
    assert!(a != Node::with_id("n1".to_string(), "h".to_string(), 3, 2));
    assert!(a != Node::with_id("n1".to_string(), "h".to_string(), 1, 3));
    assert!(!a.same_identity(&Node::with_id("n1".to_string(), "h".to_string(), 1, 3)));
}

#[test]
fn node_duplicate_keeps_metadata() {
    let mut a = Node::with_id("n1".to_string(), "h".to_string(), 1, 2);
    a.metadata.push(("zone".to_string(), "eu".to_string()));
    a.metadata.push(("rack".to_string(), "7".to_string()));
    let b = a.duplicate();
    assert_eq!(b.id, "n1");
    assert_eq!(b.host, "h");
    assert_eq!(b.port, 1);
    assert_eq!(b.api_port, 2);
    assert_eq!(b.metadata, a.metadata);
}

#[test]
fn node_set_metadata_keeps_each_key_once() {
    let mut node = Node::with_id("n1".to_string(), "h".to_string(), 1, 2);
    node.set_metadata("zone".to_string(), "eu".to_string());
    node.set_metadata("rack".to_string(), "7".to_string());
    node.set_metadata("zone".to_string(), "us".to_string());
    assert_eq!(
        node.metadata,
        vec![("zone".to_string(), "us".to_string()), ("rack".to_string(), "7".to_string())]
    );
    assert_eq!(node.id, "n1");
    let copy = node.duplicate();
    assert_eq!(copy.metadata, node.metadata);
}
