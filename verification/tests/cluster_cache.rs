use fastbu::api_cache::ApiCache;
use fastbu::cache::FastbuCache;
use fastbu::cluster::{ClusterNode, FastbuCluster};
use fastbu::cluster_cache::{
    after_direct_fetch, stored_outcome, ClusterCache, FetchStep, GetStep, InsertStep, Reaction,
};
use fastbu::error::ClusterError;
use fastbu::config::{ClusterConfig, ClusterSettings};
use fastbu::message::{CacheEntry, ClusterMessage};
use fastbu::node::Node;

fn node(id: &str, host: &str) -> Node {
    Node::with_id(id.to_string(), host.to_string(), 7946, 3031)
}

fn cache_of(id: &str, host: &str, virtual_nodes: usize) -> ClusterCache {
    let config = ClusterConfig {
        node: node(id, host),
        cluster: ClusterSettings {
            seeds: Vec::new(),
            virtual_nodes,
            gossip_interval: 1,
            node_timeout: 10,
        },
    };
    ClusterCache::new(FastbuCluster::new(config))
}

fn two_nodes(local: &str) -> ClusterCache {
    let hosts = [("node-a", "10.0.0.1"), ("node-b", "10.0.0.2")];
    let (id, host) = hosts.iter().find(|(id, _)| *id == local).unwrap();
    let mut cache = cache_of(id, host, 4);
    for (other, other_host) in hosts {
        cache.node_joined(&node(other, other_host));
    }
    cache
}

#[test]
fn test_cluster_cache_new() {
    // Create a simple cluster config for testing
    let mut config = ClusterConfig::default();
    config.node.id = "test-node".to_string();
    config.node.host = "127.0.0.1".to_string();
    config.node.port = 8001;

    let cluster = FastbuCluster::new(config);
    let _cache = ClusterCache::new(cluster);

    // The test passes if ClusterCache::new doesn't panic
    assert!(true, "ClusterCache::new should not panic");
}

#[test]
fn test_local_operations() {
    // Create a simple cluster config for testing
    let mut config = ClusterConfig::default();
    config.node.id = "test-node".to_string();
    config.node.host = "127.0.0.1".to_string();
    config.node.port = 8001;

    let cluster = FastbuCluster::new(config);
    let mut cache = ClusterCache::new(cluster);

    // Since this is a single-node cluster, all operations should be local
    let key = "local-test-key".to_string();
    let value = "local-test-value".to_string();

    // Insert should succeed
    let result = cache.insert(key.clone(), value.clone());
    assert!(matches!(result, InsertStep::Stored { .. }), "Local insert should succeed");

    // Get should return the inserted value
    let retrieved = match cache.get(&key) {
        GetStep::Done(value) => value,
        GetStep::Ask { .. } => panic!("a single node asks nobody"),
    };
    assert!(retrieved.is_some(), "Local get should find the key");
    assert_eq!(retrieved.unwrap(), value, "Retrieved value should match inserted value");
}

#[test]
fn api_cache_test_insert_and_get() {
    let mut api_cache = FastbuCache::new();

    let key = "test-key".to_string();
    let value = "test-value".to_string();
    let result = ApiCache::set(&mut api_cache, key.clone(), value.clone());
    assert!(result.is_ok());

    let retrieved = ApiCache::get(&api_cache, &key);
    assert_eq!(retrieved, Some(value));
}

#[test]
fn test_fastbu_cache_impl() {
    let mut cache = FastbuCache::new();

    // Test setting a value
    let key = "test_key".to_string();
    let value = "test_value".to_string();
    let set_result = <FastbuCache as ApiCache>::set(&mut cache, key.clone(), value.clone());
    assert!(set_result.is_ok());

    // Test getting the value
    let get_result = <FastbuCache as ApiCache>::get(&cache, &key);
    assert!(get_result.is_some());
    assert_eq!(get_result.unwrap(), value);
}

#[test]
fn api_cache_trait_test_get_nonexistent_key() {
    let cache = FastbuCache::new();

    // Test getting a nonexistent key
    let get_result = <FastbuCache as ApiCache>::get(&cache, "nonexistent_key");
    assert!(get_result.is_none());
}

#[test]
fn single_node_with_positions_serves_locally() {
    let mut cache = cache_of("node-a", "10.0.0.1", 4);
    match cache.insert("k".to_string(), "v".to_string()) {
        InsertStep::Stored { notify, message } => {
            assert!(notify.is_empty());
            assert!(matches!(
                message,
                ClusterMessage::KeyUpdated { key, value } if key == "k" && value.value == "v"
            ));
        }
        other => panic!("unexpected {:?}", other),
    }
    assert_eq!(cache.local_cache().get("k"), Some("v".to_string()));
    assert!(matches!(cache.get("k"), GetStep::Done(Some(v)) if v == "v"));
    assert!(matches!(cache.get("missing"), GetStep::Done(None)));
}

#[test]
fn owner_stores_and_tells_the_others() {
    // "beta" belongs to node-a in the ring of node-a and node-b.
    let mut cache = two_nodes("node-a");
    cache.node_joined(&node("node-c", "10.0.0.3"));
    assert_eq!(cache.cluster().get_responsible_node("beta").unwrap().id, "node-a");
    match cache.insert("beta".to_string(), "1".to_string()) {
        InsertStep::Stored { notify, message } => {
            let ids: Vec<String> = notify.into_iter().map(|n| n.id).collect();
            assert_eq!(ids, vec!["node-b", "node-c"]);
            assert!(matches!(
                message,
                ClusterMessage::KeyUpdated { key, value } if key == "beta" && value.value == "1"
            ));
        }
        other => panic!("unexpected {:?}", other),
    }
    assert_eq!(cache.local_cache().get("beta"), Some("1".to_string()));
}

#[test]
fn write_for_another_owner_is_forwarded_and_lands_there() {
    // "alpha" belongs to node-b in the ring of node-a and node-b.
    let mut writer = two_nodes("node-a");
    let mut owner = two_nodes("node-b");
    let message = match writer.insert("alpha".to_string(), "1".to_string()) {
        InsertStep::Forward { owner, message } => {
            assert_eq!(owner.id, "node-b");
            assert_eq!(owner.addr(), "10.0.0.2:7946");
            message
        }
        other => panic!("unexpected {:?}", other),
    };
    assert_eq!(writer.local_cache().get("alpha"), None);
    assert!(writer.forward_outcome("alpha".to_string(), "1".to_string(), true).is_ok());
    assert_eq!(writer.local_cache().get("alpha"), None);

    let reaction = owner.process_message(&node("node-a", "10.0.0.1"), message);
    assert!(matches!(reaction, Reaction::Nothing));
    assert_eq!(owner.local_cache().get("alpha"), Some("1".to_string()));
    assert!(matches!(owner.get("alpha"), GetStep::Done(Some(v)) if v == "1"));
}

#[test]
fn write_that_cannot_be_forwarded_is_kept_locally() {
    let mut writer = two_nodes("node-a");
    assert!(matches!(
        writer.insert("alpha".to_string(), "1".to_string()),
        InsertStep::Forward { .. }
    ));
    let done = writer.forward_outcome("alpha".to_string(), "1".to_string(), false);
    assert!(done.is_ok());
    assert_eq!(writer.local_cache().get("alpha"), Some("1".to_string()));
}

#[test]
fn read_for_another_owner_asks_the_owner() {
    let reader = two_nodes("node-a");
    match reader.get("alpha") {
        GetStep::Ask { owner, message } => {
            assert_eq!(owner.id, "node-b");
            assert!(matches!(message, ClusterMessage::FetchRequest { key } if key == "alpha"));
        }
        other => panic!("unexpected {:?}", other),
    }
}

#[test]
fn read_falls_back_to_the_local_store_when_the_owner_is_unreachable() {
    let mut reader = two_nodes("node-a");
    let owner = node("node-b", "10.0.0.2");
    assert!(matches!(reader.after_ask("alpha", &owner, false), FetchStep::Done(None)));
    let _ = reader.forward_outcome("alpha".to_string(), "kept".to_string(), false);
    assert!(
        matches!(reader.after_ask("alpha", &owner, false), FetchStep::Done(Some(v)) if v == "kept")
    );
    assert!(
        matches!(reader.after_ask("alpha", &owner, true), FetchStep::Done(Some(v)) if v == "kept")
    );
}

#[test]
fn read_goes_to_a_direct_fetch_when_the_local_store_has_nothing() {
    let reader = two_nodes("node-a");
    let owner = node("node-b", "10.0.0.2");
    match reader.after_ask("alpha", &owner, true) {
        FetchStep::DirectFetch { address, request } => {
            assert_eq!(address, "10.0.0.2:7946");
            assert_eq!(request, "GET:alpha");
        }
        other => panic!("unexpected {:?}", other),
    }
}

#[test]
fn direct_fetch_end_to_end() {
    let reader = two_nodes("node-a");
    let mut owner = two_nodes("node-b");
    let _ = owner.process_message(
        &node("node-a", "10.0.0.1"),
        ClusterMessage::KeyUpdated {
            key: "alpha".to_string(),
            value: CacheEntry::new("1".to_string()),
        },
    );
    let request = match reader.after_ask("alpha", &node("node-b", "10.0.0.2"), true) {
        FetchStep::DirectFetch { request, .. } => request,
        other => panic!("unexpected {:?}", other),
    };
    let response = owner.serve_direct_fetch(&request);
    assert_eq!(response, Some("FOUND:1".to_string()));
    assert_eq!(after_direct_fetch(response), Some("1".to_string()));

    assert_eq!(owner.serve_direct_fetch("GET:unknown"), Some("NOT_FOUND".to_string()));
    assert_eq!(owner.serve_direct_fetch("HELLO"), None);
}

#[test]
fn direct_fetch_answers_that_bring_no_value() {
    assert_eq!(after_direct_fetch(None), None);
    assert_eq!(after_direct_fetch(Some("NOT_FOUND".to_string())), None);
    assert_eq!(after_direct_fetch(Some("garbage".to_string())), None);
    assert_eq!(after_direct_fetch(Some(String::new())), None);
    assert_eq!(after_direct_fetch(Some("FOUND:".to_string())), Some(String::new()));
    assert_eq!(after_direct_fetch(Some("FOUND:a:b".to_string())), Some("a:b".to_string()));
}

#[test]
fn invalidation_removes_the_key() {
    let mut cache = two_nodes("node-a");
    let sender = node("node-b", "10.0.0.2");
    let _ = cache.process_message(
        &sender,
        ClusterMessage::KeyUpdated { key: "k".to_string(), value: CacheEntry::new("v".to_string()) },
    );
    let _ = cache.process_message(
        &sender,
        ClusterMessage::KeyUpdated {
            key: "other".to_string(),
            value: CacheEntry::new("w".to_string()),
        },
    );
    assert_eq!(cache.local_cache().get("k"), Some("v".to_string()));
    let reaction =
        cache.process_message(&sender, ClusterMessage::KeyInvalidated { key: "k".to_string() });
    assert!(matches!(reaction, Reaction::Nothing));
    assert_eq!(cache.local_cache().get("k"), None);
    assert_eq!(cache.local_cache().get("other"), Some("w".to_string()));
}

#[test]
fn fetch_request_is_answered_with_the_stored_value() {
    let mut cache = two_nodes("node-a");
    let sender = node("node-b", "10.0.0.2");
    let _ = cache.process_message(
        &sender,
        ClusterMessage::KeyUpdated { key: "k".to_string(), value: CacheEntry::new("v".to_string()) },
    );
    match cache.process_message(&sender, ClusterMessage::FetchRequest { key: "k".to_string() }) {
        Reaction::Reply { to, message } => {
            assert_eq!(to.id, "node-b");
            assert!(matches!(
                message,
                ClusterMessage::FetchResponse { key, value: Some(entry) }
                    if key == "k" && entry.value == "v"
            ));
        }
        other => panic!("unexpected {:?}", other),
    }
    match cache.process_message(&sender, ClusterMessage::FetchRequest { key: "none".to_string() })
    {
        Reaction::Reply { message, .. } => {
            assert!(matches!(
                message,
                ClusterMessage::FetchResponse { key, value: None } if key == "none"
            ));
        }
        other => panic!("unexpected {:?}", other),
    }
}

#[test]
fn ping_pong_and_fetch_response_change_nothing() {
    let mut cache = two_nodes("node-a");
    let sender = node("node-b", "10.0.0.2");
    let _ = cache.process_message(
        &sender,
        ClusterMessage::KeyUpdated { key: "k".to_string(), value: CacheEntry::new("v".to_string()) },
    );
    for message in [
        ClusterMessage::Ping,
        ClusterMessage::Pong,
        ClusterMessage::FetchResponse {
            key: "k".to_string(),
            value: Some(CacheEntry::new("x".to_string())),
        },
        ClusterMessage::FetchResponse { key: "k".to_string(), value: None },
    ] {
        assert!(matches!(cache.process_message(&sender, message), Reaction::Nothing));
        assert_eq!(cache.local_cache().get("k"), Some("v".to_string()));
        assert_eq!(cache.local_cache().len(), 1);
    }
}

#[test]
fn a_node_that_left_owns_nothing_any_more() {
    let mut cache = two_nodes("node-a");
    assert!(matches!(cache.get("alpha"), GetStep::Ask { .. }));
    cache.node_left(&node("node-b", "10.0.0.2"));
    assert!(matches!(cache.get("alpha"), GetStep::Done(None)));
    assert_eq!(cache.cluster().get_nodes().len(), 1);
}

#[test]
fn message_duplicate_is_the_same_message() {
    let message = ClusterMessage::FetchResponse {
        key: "k".to_string(),
        value: Some(CacheEntry::new("v".to_string())),
    };
    assert!(matches!(
        message.duplicate(),
        ClusterMessage::FetchResponse { key, value: Some(entry) } if key == "k" && entry.value == "v"
    ));
    assert!(matches!(ClusterMessage::Ping.duplicate(), ClusterMessage::Ping));
    assert!(matches!(ClusterMessage::Pong.duplicate(), ClusterMessage::Pong));
    assert!(matches!(
        ClusterMessage::KeyInvalidated { key: "k".to_string() }.duplicate(),
        ClusterMessage::KeyInvalidated { key } if key == "k"
    ));
}

#[test]
fn a_write_that_was_persisted_tells_the_others() {
    let notify = vec![node("node-b", "10.0.0.2"), node("node-c", "10.0.0.3")];
    let tell = stored_outcome(Ok(()), notify).unwrap();
    let ids: Vec<String> = tell.into_iter().map(|n| n.id).collect();
    assert_eq!(ids, vec!["node-b", "node-c"]);
    assert!(stored_outcome(Ok(()), Vec::new()).unwrap().is_empty());
}

#[test]
fn a_write_that_was_not_persisted_fails_and_tells_nobody() {
    let notify = vec![node("node-b", "10.0.0.2")];
    let error = stored_outcome(Err("disk full".to_string()), notify).unwrap_err();
    assert!(matches!(&error, ClusterError::IoError(text) if text == "disk full"));
    assert_eq!(error.message(), "I/O error: disk full");
    assert!(!error.is_fatal());
}

#[test]
fn a_cache_with_zero_virtual_nodes_still_forwards_to_the_owner() {
    let mut cache = cache_of("node-a", "10.0.0.1", 0);
    cache.node_joined(&node("node-b", "10.0.0.2"));
    cache.node_joined(&node("node-c", "10.0.0.3"));
    // With one position each, "alpha" belongs to node-c and "beta" to node-a.
    assert!(matches!(
        cache.insert("alpha".to_string(), "1".to_string()),
        InsertStep::Forward { owner, .. } if owner.id == "node-c"
    ));
    match cache.insert("beta".to_string(), "2".to_string()) {
        InsertStep::Stored { notify, .. } => {
            let ids: Vec<String> = notify.into_iter().map(|n| n.id).collect();
            assert_eq!(ids, vec!["node-b", "node-c"]);
        }
        other => panic!("unexpected {:?}", other),
    }
}
