use fastbu::wire::{
    fetch_key, fetch_request, fetch_response, frame, is_direct_fetch, parse_fetch_response,
    payload_length, unframe, FetchReply,
};

#[test]
fn frame_puts_the_length_in_front() {
    assert_eq!(frame(b"").unwrap(), vec![0, 0, 0, 0]);
    assert_eq!(frame(b"abc").unwrap(), vec![0, 0, 0, 3, b'a', b'b', b'c']);
}

#[test]
fn frame_length_is_big_endian() {
    let payload = vec![7u8; 0x0102_03];
    let framed = frame(&payload).unwrap();
    assert_eq!(framed.len(), 4 + 0x0102_03);
    assert_eq!(&framed[..4], &[0x00, 0x01, 0x02, 0x03]);
    assert!(framed[4..].iter().all(|b| *b == 7));
}

#[test]
fn payload_length_reads_four_bytes() {
    assert_eq!(payload_length(&[0, 0, 0, 0]), Some(0));
    assert_eq!(payload_length(&[0, 0, 1, 2]), Some(258));
    assert_eq!(payload_length(&[0x12, 0x34, 0x56, 0x78, 0xff]), Some(0x1234_5678));
    assert_eq!(payload_length(&[0xff, 0xff, 0xff, 0xff]), Some(u32::MAX));
    assert_eq!(payload_length(&[0, 0, 1]), None);
    assert_eq!(payload_length(&[]), None);
}

#[test]
fn unframe_gives_back_what_frame_took() {
    for payload in [&b""[..], &b"x"[..], &b"hello world"[..], &[0u8, 255, 1, 254][..]] {
        let framed = frame(payload).unwrap();
        assert_eq!(unframe(&framed).unwrap(), payload.to_vec());
    }
}

#[test]
fn unframe_ignores_what_follows_the_frame() {
    let mut bytes = frame(b"abc").unwrap();
    bytes.extend_from_slice(b"trailing");
    assert_eq!(unframe(&bytes).unwrap(), b"abc".to_vec());
}

#[test]
fn unframe_refuses_a_frame_that_is_not_whole() {
    assert!(unframe(&[]).is_none());
    assert!(unframe(&[0, 0, 0]).is_none());
    assert!(unframe(&[0, 0, 0, 2, 1]).is_none());
    assert!(unframe(&[0, 0, 0, 2, 1, 2]).is_some());
}

#[test]
fn direct_fetch_is_known_by_its_first_four_bytes() {
    assert!(is_direct_fetch(b"GET:key"));
    assert!(is_direct_fetch(b"GET:"));
    assert!(!is_direct_fetch(b"GET"));
    assert!(!is_direct_fetch(b"get:key"));
    assert!(!is_direct_fetch(b"GET;key"));
    assert!(!is_direct_fetch(&[0, 0, 0, 4, b'G', b'E', b'T', b':']));
    assert!(!is_direct_fetch(b""));
}

#[test]
fn fetch_request_is_the_marker_and_the_key() {
    assert_eq!(fetch_request("mykey"), "GET:mykey");
    assert_eq!(fetch_request(""), "GET:");
    assert!(is_direct_fetch(fetch_request("k").as_bytes()));
}

#[test]
fn fetch_key_takes_the_key_as_it_is() {
    assert_eq!(fetch_key("GET:mykey"), Some("mykey".to_string()));
    assert_eq!(fetch_key("GET: spaced key \n"), Some(" spaced key \n".to_string()));
    assert_eq!(fetch_key("GET:"), Some(String::new()));
    assert_eq!(fetch_key("GET:schl\u{fc}ssel"), Some("schl\u{fc}ssel".to_string()));
    assert_eq!(fetch_key("GET"), None);
    assert_eq!(fetch_key("PUT:mykey"), None);
    assert_eq!(fetch_key(""), None);
}

#[test]
fn fetch_response_says_found_or_not_found() {
    assert_eq!(fetch_response(Some("v1".to_string())), "FOUND:v1");
    assert_eq!(fetch_response(Some(String::new())), "FOUND:");
    assert_eq!(fetch_response(None), "NOT_FOUND");
}

#[test]
fn parse_fetch_response_reads_each_answer() {
    assert!(matches!(parse_fetch_response("FOUND:v1"), FetchReply::Found(v) if v == "v1"));
    assert!(matches!(parse_fetch_response("FOUND:"), FetchReply::Found(v) if v.is_empty()));
    assert!(
        matches!(parse_fetch_response("FOUND:gr\u{fc}n:1"), FetchReply::Found(v) if v == "gr\u{fc}n:1")
    );
    assert!(matches!(parse_fetch_response("NOT_FOUND"), FetchReply::NotFound));
    assert!(matches!(parse_fetch_response("NOT_FOUND "), FetchReply::Invalid));
    assert!(matches!(parse_fetch_response("FOUND"), FetchReply::Invalid));
    assert!(matches!(parse_fetch_response("found:v"), FetchReply::Invalid));
    assert!(matches!(parse_fetch_response(""), FetchReply::Invalid));
}

#[test]
fn fetch_answer_round_trip() {
    for value in ["", "v", "NOT_FOUND", "FOUND:nested"] {
        let text = fetch_response(Some(value.to_string()));
        assert!(matches!(parse_fetch_response(&text), FetchReply::Found(v) if v == value));
    }
    assert!(matches!(parse_fetch_response(&fetch_response(None)), FetchReply::NotFound));
}

#[test]
fn node_descriptor_round_trip_through_a_frame() {
    let id = "node-a".to_string();
    let host = "10.0.0.1".to_string();
    let metadata = vec![("zone".to_string(), "eu".to_string())];
    let payload = bincode::serialize(&(&id, &host, 7946u16, 3031u16, &metadata)).unwrap();
    let mut on_the_wire = frame(&payload).unwrap();
    on_the_wire.extend_from_slice(&[1]);
    let received = unframe(&on_the_wire).unwrap();
    let (rid, rhost, rport, rapi, rmeta): (String, String, u16, u16, Vec<(String, String)>) =
        bincode::deserialize(&received).unwrap();
    let sent = fastbu::node::Node::with_id(id, host, 7946, 3031);
    let mut got = fastbu::node::Node::with_id(rid, rhost, rport, rapi);
    got.metadata = rmeta;
    assert!(sent == got);
    assert_eq!(got.metadata, metadata);
}
