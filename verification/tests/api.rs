use drfe_r::api::{auth_message, authenticate, authenticate_at, default_ttl, parse_timestamp, register_auth_key, validate_send_request, check_neighbors_query, ApiError, AuthKeys, DeliveryStatus, PacketTracker, SendPacketRequest};

fn request(destination: &str, ttl: u32) -> SendPacketRequest {
    SendPacketRequest { destination: destination.to_string(), payload: "test".to_string(), ttl }
}

#[test]
fn test_default_ttl() {
    assert_eq!(default_ttl(), 64);
}

#[test]
fn test_send_packet_request_validation() {
    // Test empty destination
    assert!(validate_send_request(&request("", 64)).is_err());
    // Test invalid TTL (0)
    assert!(validate_send_request(&request("node2", 0)).is_err());
    // Test invalid TTL (> 255)
    assert!(validate_send_request(&request("node2", 256)).is_err());
}

#[test]
fn test_packet_status_not_found() {
    let tracker = PacketTracker::new();
    let result = tracker.get_packet_status("nonexistent");
    assert!(result.is_err());
}

#[test]
fn api_request_errors_are_bad_requests() {
    match validate_send_request(&request("", 0)) {
        Err(ApiError::BadRequest(m)) => assert_eq!(m, "Destination cannot be empty"),
        other => panic!("unexpected {:?}", other),
    }
    match validate_send_request(&request("n", 300)) {
        Err(ApiError::BadRequest(m)) => assert_eq!(m, "TTL must be between 1 and 255"),
        other => panic!("unexpected {:?}", other),
    }
    assert!(validate_send_request(&request("n", 1)).is_ok());
    assert!(validate_send_request(&request("n", 255)).is_ok());
}

#[test]
fn api_packet_lifecycle() {
    let mut tracker = PacketTracker::new();
    tracker.start_send("local", &request("node2", 64), "p1", 1000).unwrap();
    let status = tracker.get_packet_status("p1").unwrap();
    assert!(matches!(status.status, DeliveryStatus::Pending));
    assert_eq!(status.path, vec!["local".to_string()]);
    assert_eq!(status.source, "local");
    assert_eq!(status.destination, "node2");

    let response = tracker.finish_send("p1", "local", Ok(())).unwrap();
    assert_eq!(response.status, "in_transit");
    match tracker.get_packet_status("p1").unwrap().status {
        DeliveryStatus::InTransit { current_node } => assert_eq!(current_node, "local"),
        other => panic!("unexpected {:?}", other),
    }

    tracker.start_send("local", &request("node3", 8), "p2", 2000).unwrap();
    match tracker.finish_send("p2", "local", Err("no route".to_string())) {
        Err(ApiError::Internal(m)) => assert_eq!(m, "Failed to send packet: no route"),
        other => panic!("unexpected {:?}", other),
    }
    match tracker.get_packet_status("p2").unwrap().status {
        DeliveryStatus::Failed { reason } => assert_eq!(reason, "no route"),
        other => panic!("unexpected {:?}", other),
    }
    match tracker.get_packet_status("p9") {
        Err(ApiError::NotFound(m)) => assert_eq!(m, "Packet p9 not found"),
        other => panic!("unexpected {:?}", other),
    }
}

#[test]
fn api_rejected_request_is_not_tracked() {
    let mut tracker = PacketTracker::new();
    assert!(tracker.start_send("local", &request("", 64), "p1", 0).is_err());
    assert!(tracker.get_packet_status("p1").is_err());
}

#[test]
fn api_neighbors_only_of_the_local_node() {
    assert!(check_neighbors_query("test_node", "test_node").is_ok());
    assert!(check_neighbors_query("other", "test_node").is_err());
}

use base64::Engine;
use ed25519_dalek::Signer;

fn unauthorized_text(r: Result<(), ApiError>) -> String {
    match r {
        Err(ApiError::Unauthorized(m)) => m,
        other => panic!("expected an unauthorized error, got {:?}", other),
    }
}

fn signed(secret: [u8; 32], node: &str, timestamp: u64) -> (Vec<u8>, String) {
    let key = ed25519_dalek::SigningKey::from_bytes(&secret);
    let message = format!("{}:{}", node, timestamp);
    let signature = key.sign(message.as_bytes());
    (
        key.verifying_key().to_bytes().to_vec(),
        base64::engine::general_purpose::STANDARD.encode(signature.to_bytes()),
    )
}

#[test]
fn api_auth_message_is_id_colon_decimal_timestamp() {
    assert_eq!(auth_message("node1", 1_700_000_000_123), b"node1:1700000000123".to_vec());
    assert_eq!(auth_message("", 0), b":0".to_vec());
    assert_eq!(auth_message("n", u64::MAX), format!("n:{}", u64::MAX).into_bytes());
}

#[test]
fn api_timestamps_parse_as_u64_from_str() {
    for text in ["0", "42", "+42", "007", "18446744073709551615", "", "+", "-1", " 1", "1 ", "1a", "18446744073709551616"] {
        assert_eq!(parse_timestamp(text), text.parse::<u64>().ok(), "text {:?}", text);
    }
}

#[test]
fn api_register_auth_key_checks_the_key() {
    let mut keys = AuthKeys::new();
    assert_eq!(
        register_auth_key(&mut keys, "n", &[1, 2, 3]),
        Err("Invalid public key length (expected 32 bytes)".to_string())
    );
    assert!(!keys.is_registered("n"));
    let (public, _) = signed([9; 32], "n", 0);
    assert_eq!(register_auth_key(&mut keys, "n", &public), Ok(()));
    assert!(keys.is_registered("n"));
    // find 32 bytes that do not decompress to a curve point
    let mut bad = [0u8; 32];
    for b in 2..=255u8 {
        bad[0] = b;
        if ed25519_dalek::VerifyingKey::from_bytes(&bad).is_err() {
            break;
        }
    }
    assert!(ed25519_dalek::VerifyingKey::from_bytes(&bad).is_err());
    let err = register_auth_key(&mut keys, "m", &bad).unwrap_err();
    assert!(err.starts_with("Invalid public key: "));
    assert!(!keys.is_registered("m"));
}

#[test]
fn api_authentication_accepts_a_fresh_signature() {
    let mut keys = AuthKeys::new();
    let now = 1_700_000_000_000u64;
    let (public, sig) = signed([5; 32], "node1", now - 1_000);
    register_auth_key(&mut keys, "node1", &public).unwrap();
    let ts = (now - 1_000).to_string();
    assert!(authenticate_at(&keys, true, Some("node1"), Some(&sig), Some(&ts), now).is_ok());
    // the same headers signed for another time fail
    let other = (now - 2_000).to_string();
    assert_eq!(
        unauthorized_text(authenticate_at(&keys, true, Some("node1"), Some(&sig), Some(&other), now)),
        "Signature verification failed"
    );
}

#[test]
fn api_authentication_errors_in_order() {
    let mut keys = AuthKeys::new();
    let now = 1_000_000u64;
    let (public, sig) = signed([3; 32], "a", now);
    register_auth_key(&mut keys, "a", &public).unwrap();
    let ts = now.to_string();
    assert!(authenticate_at(&keys, false, None, None, None, now).is_ok());
    assert_eq!(unauthorized_text(authenticate_at(&keys, true, None, Some(&sig), Some(&ts), now)), "Missing X-Node-Id header");
    assert_eq!(unauthorized_text(authenticate_at(&keys, true, Some("a"), None, Some(&ts), now)), "Missing X-Signature header");
    assert_eq!(unauthorized_text(authenticate_at(&keys, true, Some("a"), Some(&sig), None, now)), "Missing X-Timestamp header");
    assert_eq!(unauthorized_text(authenticate_at(&keys, true, Some("a"), Some(&sig), Some("soon"), now)), "Invalid timestamp format");
    let old = (now - 300_001).to_string();
    assert_eq!(unauthorized_text(authenticate_at(&keys, true, Some("a"), Some(&sig), Some(&old), now)), "Timestamp too old or in future");
    let edge = (now + 300_000).to_string();
    assert_eq!(
        unauthorized_text(authenticate_at(&keys, true, Some("a"), Some(&sig), Some(&edge), now)),
        "Signature verification failed"
    );
    assert_eq!(unauthorized_text(authenticate_at(&keys, true, Some("b"), Some(&sig), Some(&ts), now)), "Unknown node ID: b");
    assert_eq!(unauthorized_text(authenticate_at(&keys, true, Some("a"), Some("%%%"), Some(&ts), now)), "Invalid signature encoding");
    assert_eq!(unauthorized_text(authenticate_at(&keys, true, Some("a"), Some("AAAA"), Some(&ts), now)), "Invalid signature format");
}

#[test]
fn api_authenticate_reads_the_clock() {
    let keys = AuthKeys::new();
    assert!(authenticate(&keys, false, None, None, None).is_ok());
    assert_eq!(unauthorized_text(authenticate(&keys, true, None, None, None)), "Missing X-Node-Id header");
    // a timestamp of 0 is decades away from the clock
    assert_eq!(
        unauthorized_text(authenticate(&keys, true, Some("a"), Some("AAAA"), Some("0"))),
        "Timestamp too old or in future"
    );
}

#[test]
fn api_check_signature_needs_a_registered_node() {
    let keys = AuthKeys::new();
    assert_eq!(unauthorized_text(keys.check_signature("z", 1, &[0u8; 64])), "Unknown node ID: z");
}

#[test]
fn api_errors_answer_with_their_status() {
    assert_eq!(ApiError::NotFound("x".into()).status_code(), 404);
    assert_eq!(ApiError::BadRequest("x".into()).status_code(), 400);
    assert_eq!(ApiError::Internal("x".into()).status_code(), 500);
    assert_eq!(ApiError::Unauthorized("x".into()).status_code(), 401);
    assert_eq!(ApiError::TooManyRequests("x".into()).status_code(), 429);
}

#[test]
fn api_rate_limit_key_is_the_node_or_default() {
    assert_eq!(drfe_r::api::rate_limit_key(Some("node7")), "node7");
    assert_eq!(drfe_r::api::rate_limit_key(None), "default");
}

#[test]
fn api_begin_send_tracks_a_fresh_pending_packet() {
    let mut tracker = PacketTracker::new();
    let id = tracker.begin_send("local", &request("node2", 64)).unwrap();
    assert_eq!(id.len(), 36);
    let status = tracker.get_packet_status(&id).unwrap();
    assert!(matches!(status.status, DeliveryStatus::Pending));
    assert_eq!(status.source, "local");
    assert_eq!(status.destination, "node2");
    assert_eq!(status.path, vec!["local".to_string()]);
    assert!(tracker.begin_send("local", &request("", 64)).is_err());
    let other = tracker.begin_send("local", &request("node3", 1)).unwrap();
    assert_ne!(id, other);
}

#[test]
fn api_check_signature_accepts_exactly_valid_signatures() {
    let mut keys = AuthKeys::new();
    let (public, sig) = signed([7; 32], "n", 42);
    register_auth_key(&mut keys, "n", &public).unwrap();
    let bytes = base64::engine::general_purpose::STANDARD.decode(&sig).unwrap();
    assert!(keys.check_signature("n", 42, &bytes).is_ok());
    assert_eq!(unauthorized_text(keys.check_signature("n", 43, &bytes)), "Signature verification failed");
    let mut flipped = bytes.clone();
    flipped[0] ^= 1;
    assert_eq!(unauthorized_text(keys.check_signature("n", 42, &flipped)), "Signature verification failed");
    assert_eq!(unauthorized_text(keys.check_signature("n", 42, &[0u8; 64])), "Signature verification failed");
    assert_eq!(unauthorized_text(keys.check_signature("n", 42, &bytes[..63])), "Invalid signature format");
}
