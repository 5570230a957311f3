use drfe_r::audit::{AuditLevel, AuditLogger, AuditOutcome, AuditValue, SecurityEventType};

#[test]
fn test_security_event_type_display() {
    assert_eq!(SecurityEventType::Authentication.to_string(), "AUTHENTICATION");
    assert_eq!(SecurityEventType::SignatureVerification.to_string(), "SIGNATURE_VERIFICATION");
    assert_eq!(SecurityEventType::RateLimit.to_string(), "RATE_LIMIT");
    assert_eq!(SecurityEventType::TlsConnection.to_string(), "TLS_CONNECTION");
    assert_eq!(SecurityEventType::MaliciousPacket.to_string(), "MALICIOUS_PACKET");
    assert_eq!(SecurityEventType::NodeLifecycle.to_string(), "NODE_LIFECYCLE");
    assert_eq!(SecurityEventType::CoordinateUpdate.to_string(), "COORDINATE_UPDATE");
    assert_eq!(SecurityEventType::ApiAccess.to_string(), "API_ACCESS");
    assert_eq!(SecurityEventType::ConfigurationChange.to_string(), "CONFIGURATION_CHANGE");
}

#[test]
fn test_audit_outcome_display() {
    assert_eq!(AuditOutcome::Success.to_string(), "SUCCESS");
    assert_eq!(AuditOutcome::Failure.to_string(), "FAILURE");
    assert_eq!(AuditOutcome::Denied.to_string(), "DENIED");
}

fn text_of(v: &AuditValue) -> String {
    match v {
        AuditValue::Text(s) => s.clone(),
        AuditValue::Number(n) => n.to_string(),
        AuditValue::Reason(r) => format!("{:?}", r),
    }
}

fn field_names(fields: &[drfe_r::audit::AuditField]) -> Vec<String> {
    fields.iter().map(|f| f.name.clone()).collect()
}

#[test]
fn test_audit_logger_authentication() {
    // Test successful authentication
    let ok = AuditLogger::log_authentication("node1", AuditOutcome::Success, None).unwrap();
    assert_eq!(ok.level, AuditLevel::Info);
    assert_eq!(ok.message, "Authentication successful");
    assert_eq!(field_names(&ok.fields), vec!["node_id"]);

    // Test failed authentication
    let failed = AuditLogger::log_authentication("node2", AuditOutcome::Failure, Some("Invalid signature")).unwrap();
    assert_eq!(failed.level, AuditLevel::Warn);
    assert_eq!(failed.message, "Authentication failed");
    assert_eq!(field_names(&failed.fields), vec!["node_id", "reason"]);
    assert_eq!(text_of(&failed.fields[1].value), "Some(\"Invalid signature\")");
}

#[test]
fn test_audit_logger_signature_verification() {
    let ok = AuditLogger::log_signature_verification("packet123", "node1", AuditOutcome::Success, None).unwrap();
    assert_eq!(ok.level, AuditLevel::Info);
    assert_eq!(ok.event_type, SecurityEventType::SignatureVerification);

    let failed = AuditLogger::log_signature_verification("packet456", "node2", AuditOutcome::Failure, Some("Invalid signature"))
        .unwrap();
    assert_eq!(failed.level, AuditLevel::Warn);
    assert_eq!(field_names(&failed.fields), vec!["packet_id", "source_node", "reason"]);
}

#[test]
fn test_audit_logger_rate_limit() {
    let allowed = AuditLogger::log_rate_limit("client1", "/api/v1/packets", AuditOutcome::Success).unwrap();
    assert_eq!(allowed.message, "Request allowed");
    let denied = AuditLogger::log_rate_limit("client2", "/api/v1/packets", AuditOutcome::Denied).unwrap();
    assert_eq!(denied.level, AuditLevel::Warn);
    assert_eq!(denied.message, "Rate limit exceeded");
}

#[test]
fn test_audit_logger_tls_connection() {
    let ok = AuditLogger::log_tls_connection("192.168.1.1:7778", AuditOutcome::Success, None).unwrap();
    assert_eq!(ok.message, "TLS connection established");
    let failed = AuditLogger::log_tls_connection("192.168.1.2:7778", AuditOutcome::Failure, Some("Handshake failed")).unwrap();
    assert_eq!(failed.level, AuditLevel::Warn);
    assert_eq!(text_of(&failed.fields[0].value), "192.168.1.2:7778");
}

#[test]
fn test_audit_logger_malicious_packet() {
    let r = AuditLogger::log_malicious_packet(
        "packet789",
        "node3",
        "TTL_MANIPULATION",
        "TTL exceeds maximum allowed value",
    )
    .unwrap();
    assert_eq!(r.level, AuditLevel::Error);
    assert_eq!(r.outcome, AuditOutcome::Denied);
    assert_eq!(text_of(&r.fields[2].value), "TTL_MANIPULATION");
}

#[test]
fn test_audit_logger_node_lifecycle() {
    let join = AuditLogger::log_node_lifecycle("node1", "join", AuditOutcome::Success).unwrap();
    assert_eq!(text_of(&join.fields[1].value), "join");
    let leave = AuditLogger::log_node_lifecycle("node2", "leave", AuditOutcome::Success).unwrap();
    assert_eq!(leave.message, "Node lifecycle event");
}

#[test]
fn test_audit_logger_coordinate_update() {
    let r = AuditLogger::log_coordinate_update("node1", 1, 2, AuditOutcome::Success).unwrap();
    assert_eq!(r.event_type, SecurityEventType::CoordinateUpdate);
    assert_eq!(text_of(&r.fields[1].value), "1");
    assert_eq!(text_of(&r.fields[2].value), "2");
}

#[test]
fn test_audit_logger_api_access() {
    let ok = AuditLogger::log_api_access("client1", "POST", "/api/v1/packets", AuditOutcome::Success, 200).unwrap();
    assert_eq!(ok.message, "API access");
    assert_eq!(text_of(&ok.fields[3].value), "200");
    let denied = AuditLogger::log_api_access("client2", "GET", "/api/v1/nodes/node1", AuditOutcome::Denied, 403).unwrap();
    assert_eq!(denied.message, "API access failed or denied");
    assert_eq!(denied.level, AuditLevel::Warn);
}

#[test]
fn test_audit_logger_configuration_change() {
    let r = AuditLogger::log_configuration_change("admin", "max_ttl", "64", "128").unwrap();
    assert_eq!(r.outcome, AuditOutcome::Success);
    assert_eq!(field_names(&r.fields), vec!["changed_by", "setting", "old_value", "new_value"]);
    assert_eq!(text_of(&r.fields[3].value), "128");
}

#[test]
fn audit_events_that_are_not_recorded() {
    assert!(AuditLogger::log_rate_limit("client1", "/x", AuditOutcome::Failure).is_none());
    assert!(AuditLogger::log_tls_connection("peer", AuditOutcome::Denied, None).is_none());
    assert!(AuditLogger::log_node_lifecycle("node", "join", AuditOutcome::Denied).is_none());
}

#[test]
fn audit_denied_authentication_is_a_warning() {
    let r = AuditLogger::log_authentication("node9", AuditOutcome::Denied, None).unwrap();
    assert_eq!(r.level, AuditLevel::Warn);
    assert_eq!(text_of(&r.fields[1].value), "None");
}
