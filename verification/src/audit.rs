//! Audit records for security events.
//!
//! Each `AuditLogger` function decides what a security event is recorded as: the
//! severity, the message and the structured fields, or that nothing is recorded. The
//! record is then handed to the logging backend.

use vstd::prelude::*;

verus! {

/// Security event types for audit logging
#[derive(Debug, Clone, Copy, PartialEq, Eq, Structural)]
pub enum SecurityEventType {
    /// Authentication attempt (success or failure)
    Authentication,
    /// Packet signature verification
    SignatureVerification,
    /// Rate limit enforcement
    RateLimit,
    /// TLS connection establishment
    TlsConnection,
    /// Malicious packet detection
    MaliciousPacket,
    /// Node join/leave events
    NodeLifecycle,
    /// Coordinate update events
    CoordinateUpdate,
    /// API access events
    ApiAccess,
    /// Configuration changes
    ConfigurationChange,
}

/// The label under which an event type is recorded.
pub open spec fn event_label(e: SecurityEventType) -> Seq<char> {
    match e {
        SecurityEventType::Authentication => "AUTHENTICATION"@,
        SecurityEventType::SignatureVerification => "SIGNATURE_VERIFICATION"@,
        SecurityEventType::RateLimit => "RATE_LIMIT"@,
        SecurityEventType::TlsConnection => "TLS_CONNECTION"@,
        SecurityEventType::MaliciousPacket => "MALICIOUS_PACKET"@,
        SecurityEventType::NodeLifecycle => "NODE_LIFECYCLE"@,
        SecurityEventType::CoordinateUpdate => "COORDINATE_UPDATE"@,
        SecurityEventType::ApiAccess => "API_ACCESS"@,
        SecurityEventType::ConfigurationChange => "CONFIGURATION_CHANGE"@,
    }
}

impl SecurityEventType {
    /// The event type's label.
    pub fn to_string(&self) -> (r: String)
        ensures
            r@ == event_label(*self),
    {
        match self {
            SecurityEventType::Authentication => "AUTHENTICATION".to_owned(),
            SecurityEventType::SignatureVerification => "SIGNATURE_VERIFICATION".to_owned(),
            SecurityEventType::RateLimit => "RATE_LIMIT".to_owned(),
            SecurityEventType::TlsConnection => "TLS_CONNECTION".to_owned(),
            SecurityEventType::MaliciousPacket => "MALICIOUS_PACKET".to_owned(),
            SecurityEventType::NodeLifecycle => "NODE_LIFECYCLE".to_owned(),
            SecurityEventType::CoordinateUpdate => "COORDINATE_UPDATE".to_owned(),
            SecurityEventType::ApiAccess => "API_ACCESS".to_owned(),
            SecurityEventType::ConfigurationChange => "CONFIGURATION_CHANGE".to_owned(),
        }
    }
}

/// Audit event outcome
#[derive(Debug, Clone, Copy, PartialEq, Eq, Structural)]
pub enum AuditOutcome {
    /// Event succeeded
    Success,
    /// Event failed
    Failure,
    /// Event was denied/rejected
    Denied,
}

/// The label under which an outcome is recorded.
pub open spec fn outcome_label(o: AuditOutcome) -> Seq<char> {
    match o {
        AuditOutcome::Success => "SUCCESS"@,
        AuditOutcome::Failure => "FAILURE"@,
        AuditOutcome::Denied => "DENIED"@,
    }
}

impl AuditOutcome {
    /// The outcome's label.
    pub fn to_string(&self) -> (r: String)
        ensures
            r@ == outcome_label(*self),
    {
        match self {
            AuditOutcome::Success => "SUCCESS".to_owned(),
            AuditOutcome::Failure => "FAILURE".to_owned(),
            AuditOutcome::Denied => "DENIED".to_owned(),
        }
    }
}

/// The severity an audit record is logged at.
#[derive(Debug, Clone, Copy, PartialEq, Eq, Structural)]
pub enum AuditLevel {
    Info,
    Warn,
    Error,
}

/// The value of a structured field.
#[derive(Debug, Clone)]
pub enum AuditValue {
    /// Recorded by its text.
    Text(String),
    /// Recorded as a decimal number.
    Number(u64),
    /// An optional reason, recorded in its debug form.
    Reason(Option<String>),
}

/// A structured field: its name and value.
#[derive(Debug, Clone)]
pub struct AuditField {
    pub name: String,
    pub value: AuditValue,
}

/// What an audit event is recorded as.
#[derive(Debug, Clone)]
pub struct AuditRecord {
    pub level: AuditLevel,
    pub event_type: SecurityEventType,
    pub outcome: AuditOutcome,
    pub fields: Vec<AuditField>,
    pub message: String,
}

/// A field value as the contracts see it.
pub enum ValueView {
    Text(Seq<char>),
    Number(nat),
    Reason(Option<Seq<char>>),
}

/// A record as the contracts see it.
pub struct RecordView {
    pub level: AuditLevel,
    pub event_type: SecurityEventType,
    pub outcome: AuditOutcome,
    pub fields: Seq<(Seq<char>, ValueView)>,
    pub message: Seq<char>,
}

impl View for AuditValue {
    type V = ValueView;

    open spec fn view(&self) -> ValueView {
        match self {
            AuditValue::Text(s) => ValueView::Text(s@),
            AuditValue::Number(n) => ValueView::Number(*n as nat),
            AuditValue::Reason(r) => ValueView::Reason(
                match r {
                    Some(s) => Some(s@),
                    None => None,
                },
            ),
        }
    }
}

impl View for AuditRecord {
    type V = RecordView;

    open spec fn view(&self) -> RecordView {
        RecordView {
            level: self.level,
            event_type: self.event_type,
            outcome: self.outcome,
            fields: self.fields@.map_values(|f: AuditField| (f.name@, f.value@)),
            message: self.message@,
        }
    }
}

/// The optional text of an optional string slice.
pub open spec fn reason_view(r: Option<&str>) -> Option<Seq<char>> {
    match r {
        Some(s) => Some(s@),
        None => None,
    }
}

fn text_field(name: &str, value: &str) -> (r: AuditField)
    ensures
        r.name@ == name@,
        r.value@ == ValueView::Text(value@),
{
    AuditField { name: name.to_owned(), value: AuditValue::Text(value.to_owned()) }
}

fn number_field(name: &str, value: u64) -> (r: AuditField)
    ensures
        r.name@ == name@,
        r.value@ == ValueView::Number(value as nat),
{
    AuditField { name: name.to_owned(), value: AuditValue::Number(value) }
}

fn reason_field(reason: Option<&str>) -> (r: AuditField)
    ensures
        r.name@ == "reason"@,
        r.value@ == ValueView::Reason(reason_view(reason)),
{
    let value = match reason {
        Some(s) => AuditValue::Reason(Some(s.to_owned())),
        None => AuditValue::Reason(None),
    };
    AuditField { name: "reason".to_owned(), value }
}

fn record(
    level: AuditLevel,
    event_type: SecurityEventType,
    outcome: AuditOutcome,
    fields: Vec<AuditField>,
    message: &str,
) -> (r: AuditRecord)
    ensures
        r.level == level,
        r.event_type == event_type,
        r.outcome == outcome,
        r.fields == fields,
        r.message@ == message@,
{
    AuditRecord { level, event_type, outcome, fields, message: message.to_owned() }
}

/// Audit logger for security events
pub struct AuditLogger;


/// A text field.
pub open spec fn text(name: Seq<char>, value: Seq<char>) -> (Seq<char>, ValueView) {
    (name, ValueView::Text(value))
}

/// A numeric field.
pub open spec fn number(name: Seq<char>, value: nat) -> (Seq<char>, ValueView) {
    (name, ValueView::Number(value))
}

/// The optional reason field.
pub open spec fn reason(r: Option<Seq<char>>) -> (Seq<char>, ValueView) {
    ("reason"@, ValueView::Reason(r))
}

/// A record of the given severity, event, outcome, fields and message.
pub open spec fn rec(
    level: AuditLevel,
    event_type: SecurityEventType,
    outcome: AuditOutcome,
    fields: Seq<(Seq<char>, ValueView)>,
    message: Seq<char>,
) -> RecordView {
    RecordView { level, event_type, outcome, fields, message }
}

/// An authentication attempt: logged at info when it succeeded, else at warn with the
/// reason.
pub open spec fn authentication_record(node_id: Seq<char>, outcome: AuditOutcome, why: Option<Seq<char>>) -> Option<RecordView> {
    let e = SecurityEventType::Authentication;
    match outcome {
        AuditOutcome::Success => Some(rec(AuditLevel::Info, e, outcome, seq![text("node_id"@, node_id)], "Authentication successful"@)),
        _ => Some(rec(AuditLevel::Warn, e, outcome, seq![text("node_id"@, node_id), reason(why)], "Authentication failed"@)),
    }
}

/// A signature check: info on success, else warn with the reason.
pub open spec fn signature_record(packet_id: Seq<char>, source_node: Seq<char>, outcome: AuditOutcome, why: Option<Seq<char>>) -> Option<RecordView> {
    let e = SecurityEventType::SignatureVerification;
    let ids = seq![text("packet_id"@, packet_id), text("source_node"@, source_node)];
    match outcome {
        AuditOutcome::Success => Some(rec(AuditLevel::Info, e, outcome, ids, "Signature verification successful"@)),
        _ => Some(rec(AuditLevel::Warn, e, outcome, ids.push(reason(why)), "Signature verification failed"@)),
    }
}

/// A rate-limit decision: warn when denied, info when allowed, nothing on failure.
pub open spec fn rate_limit_record(client_id: Seq<char>, endpoint: Seq<char>, outcome: AuditOutcome) -> Option<RecordView> {
    let e = SecurityEventType::RateLimit;
    let f = seq![text("client_id"@, client_id), text("endpoint"@, endpoint)];
    match outcome {
        AuditOutcome::Denied => Some(rec(AuditLevel::Warn, e, outcome, f, "Rate limit exceeded"@)),
        AuditOutcome::Success => Some(rec(AuditLevel::Info, e, outcome, f, "Request allowed"@)),
        AuditOutcome::Failure => None,
    }
}

/// A TLS connection: info on success, warn with the reason on failure, nothing when denied.
pub open spec fn tls_record(peer_addr: Seq<char>, outcome: AuditOutcome, why: Option<Seq<char>>) -> Option<RecordView> {
    let e = SecurityEventType::TlsConnection;
    match outcome {
        AuditOutcome::Success => Some(rec(AuditLevel::Info, e, outcome, seq![text("peer_addr"@, peer_addr)], "TLS connection established"@)),
        AuditOutcome::Failure => Some(rec(AuditLevel::Warn, e, outcome, seq![text("peer_addr"@, peer_addr), reason(why)], "TLS connection failed"@)),
        AuditOutcome::Denied => None,
    }
}

/// A malicious packet: always an error, with outcome denied.
pub open spec fn malicious_record(packet_id: Seq<char>, source_node: Seq<char>, violation_type: Seq<char>, details: Seq<char>) -> Option<RecordView> {
    Some(rec(
        AuditLevel::Error,
        SecurityEventType::MaliciousPacket,
        AuditOutcome::Denied,
        seq![
            text("packet_id"@, packet_id),
            text("source_node"@, source_node),
            text("violation_type"@, violation_type),
            text("details"@, details),
        ],
        "Malicious packet detected and rejected"@,
    ))
}

/// A node joining or leaving: info on success, warn on failure, nothing when denied.
pub open spec fn lifecycle_record(node_id: Seq<char>, event: Seq<char>, outcome: AuditOutcome) -> Option<RecordView> {
    let e = SecurityEventType::NodeLifecycle;
    let f = seq![text("node_id"@, node_id), text("event"@, event)];
    match outcome {
        AuditOutcome::Success => Some(rec(AuditLevel::Info, e, outcome, f, "Node lifecycle event"@)),
        AuditOutcome::Failure => Some(rec(AuditLevel::Warn, e, outcome, f, "Node lifecycle event failed"@)),
        AuditOutcome::Denied => None,
    }
}

/// A coordinate update: always info.
pub open spec fn coordinate_record(node_id: Seq<char>, old_version: u64, new_version: u64, outcome: AuditOutcome) -> Option<RecordView> {
    Some(rec(
        AuditLevel::Info,
        SecurityEventType::CoordinateUpdate,
        outcome,
        seq![text("node_id"@, node_id), number("old_version"@, old_version as nat), number("new_version"@, new_version as nat)],
        "Coordinate update"@,
    ))
}

/// An API access: info on success, else warn.
pub open spec fn api_access_record(client_id: Seq<char>, method: Seq<char>, endpoint: Seq<char>, outcome: AuditOutcome, status_code: u16) -> Option<RecordView> {
    let e = SecurityEventType::ApiAccess;
    let f = seq![
        text("client_id"@, client_id),
        text("method"@, method),
        text("endpoint"@, endpoint),
        number("status_code"@, status_code as nat),
    ];
    match outcome {
        AuditOutcome::Success => Some(rec(AuditLevel::Info, e, outcome, f, "API access"@)),
        _ => Some(rec(AuditLevel::Warn, e, outcome, f, "API access failed or denied"@)),
    }
}

/// A configuration change: always info, with outcome success.
pub open spec fn configuration_record(changed_by: Seq<char>, setting: Seq<char>, old_value: Seq<char>, new_value: Seq<char>) -> Option<RecordView> {
    Some(rec(
        AuditLevel::Info,
        SecurityEventType::ConfigurationChange,
        AuditOutcome::Success,
        seq![
            text("changed_by"@, changed_by),
            text("setting"@, setting),
            text("old_value"@, old_value),
            text("new_value"@, new_value),
        ],
        "Configuration changed"@,
    ))
}

/// A failed authentication, signature check, TLS connection, node join or leave, or
/// API access is always recorded, as a warning that keeps the event's type and its
/// failure outcome.
pub proof fn lemma_failures_recorded(a: Seq<char>, b: Seq<char>, why: Option<Seq<char>>, status_code: u16)
    ensures
        authentication_record(a, AuditOutcome::Failure, why) matches Some(r) && r.level == AuditLevel::Warn
            && r.event_type == SecurityEventType::Authentication && r.outcome == AuditOutcome::Failure,
        signature_record(a, b, AuditOutcome::Failure, why) matches Some(r) && r.level == AuditLevel::Warn
            && r.event_type == SecurityEventType::SignatureVerification && r.outcome == AuditOutcome::Failure,
        tls_record(a, AuditOutcome::Failure, why) matches Some(r) && r.level == AuditLevel::Warn
            && r.event_type == SecurityEventType::TlsConnection && r.outcome == AuditOutcome::Failure,
        lifecycle_record(a, b, AuditOutcome::Failure) matches Some(r) && r.level == AuditLevel::Warn
            && r.event_type == SecurityEventType::NodeLifecycle && r.outcome == AuditOutcome::Failure,
        api_access_record(a, b, b, AuditOutcome::Failure, status_code) matches Some(r) && r.level == AuditLevel::Warn
            && r.event_type == SecurityEventType::ApiAccess && r.outcome == AuditOutcome::Failure,
{
}

/// A node's join or leave is recorded unless it was denied. The record carries the
/// outcome, names the node and the event, and is a warning exactly when the event
/// failed, saying so; a success is recorded at info.
pub proof fn lemma_lifecycle_recorded(node_id: Seq<char>, event: Seq<char>, outcome: AuditOutcome)
    ensures
        lifecycle_record(node_id, event, outcome) is Some <==> outcome != AuditOutcome::Denied,
        lifecycle_record(node_id, event, outcome) matches Some(r) ==> {
            &&& r.event_type == SecurityEventType::NodeLifecycle
            &&& r.outcome == outcome
            &&& r.fields.contains(("node_id"@, ValueView::Text(node_id)))
            &&& r.fields.contains(("event"@, ValueView::Text(event)))
            &&& (r.level == AuditLevel::Warn <==> outcome == AuditOutcome::Failure)
            &&& (r.level == AuditLevel::Info <==> outcome == AuditOutcome::Success)
            &&& (outcome == AuditOutcome::Failure ==> r.message == "Node lifecycle event failed"@)
        },
{
    if let Some(r) = lifecycle_record(node_id, event, outcome) {
        assert(r.fields[0] == ("node_id"@, ValueView::Text(node_id)));
        assert(r.fields[1] == ("event"@, ValueView::Text(event)));
    }
}

/// The view of an optional record.
pub open spec fn record_view(r: Option<AuditRecord>) -> Option<RecordView> {
    match r {
        Some(x) => Some(x@),
        None => None,
    }
}

spec fn field_views(v: Seq<AuditField>) -> Seq<(Seq<char>, ValueView)> {
    v.map_values(|f: AuditField| (f.name@, f.value@))
}

impl AuditLogger {
    /// Log an authentication event
    pub fn log_authentication(node_id: &str, outcome: AuditOutcome, reason: Option<&str>) -> (r: Option<AuditRecord>)
        ensures
            record_view(r) == authentication_record(node_id@, outcome, reason_view(reason)),
    {
        let mut fields: Vec<AuditField> = Vec::new();
        fields.push(text_field("node_id", node_id));
        match outcome {
            AuditOutcome::Success => {
                let r = record(AuditLevel::Info, SecurityEventType::Authentication, outcome, fields, "Authentication successful");
                assert(field_views(r.fields@) =~= seq![text("node_id"@, node_id@)]);
                Some(r)
            },
            _ => {
                fields.push(reason_field(reason));
                let r = record(AuditLevel::Warn, SecurityEventType::Authentication, outcome, fields, "Authentication failed");
                assert(field_views(r.fields@) =~= seq![text("node_id"@, node_id@), self::reason(reason_view(reason))]);
                Some(r)
            },
        }
    }

    /// Log a signature verification event
    pub fn log_signature_verification(packet_id: &str, source_node: &str, outcome: AuditOutcome, reason: Option<&str>) -> (r: Option<AuditRecord>)
        ensures
            record_view(r) == signature_record(packet_id@, source_node@, outcome, reason_view(reason)),
    {
        let mut fields: Vec<AuditField> = Vec::new();
        fields.push(text_field("packet_id", packet_id));
        fields.push(text_field("source_node", source_node));
        let ghost ids = seq![text("packet_id"@, packet_id@), text("source_node"@, source_node@)];
        match outcome {
            AuditOutcome::Success => {
                let r = record(AuditLevel::Info, SecurityEventType::SignatureVerification, outcome, fields, "Signature verification successful");
                assert(field_views(r.fields@) =~= ids);
                Some(r)
            },
            _ => {
                fields.push(reason_field(reason));
                let r = record(AuditLevel::Warn, SecurityEventType::SignatureVerification, outcome, fields, "Signature verification failed");
                assert(field_views(r.fields@) =~= ids.push(self::reason(reason_view(reason))));
                Some(r)
            },
        }
    }

    /// Log a rate limit event
    pub fn log_rate_limit(client_id: &str, endpoint: &str, outcome: AuditOutcome) -> (r: Option<AuditRecord>)
        ensures
            record_view(r) == rate_limit_record(client_id@, endpoint@, outcome),
    {
        let mut fields: Vec<AuditField> = Vec::new();
        fields.push(text_field("client_id", client_id));
        fields.push(text_field("endpoint", endpoint));
        let ghost f = seq![text("client_id"@, client_id@), text("endpoint"@, endpoint@)];
        assert(field_views(fields@) =~= f);
        match outcome {
            AuditOutcome::Denied => Some(record(AuditLevel::Warn, SecurityEventType::RateLimit, outcome, fields, "Rate limit exceeded")),
            AuditOutcome::Success => Some(record(AuditLevel::Info, SecurityEventType::RateLimit, outcome, fields, "Request allowed")),
            AuditOutcome::Failure => None,
        }
    }

    /// Log a TLS connection event
    pub fn log_tls_connection(peer_addr: &str, outcome: AuditOutcome, reason: Option<&str>) -> (r: Option<AuditRecord>)
        ensures
            record_view(r) == tls_record(peer_addr@, outcome, reason_view(reason)),
    {
        let mut fields: Vec<AuditField> = Vec::new();
        fields.push(text_field("peer_addr", peer_addr));
        match outcome {
            AuditOutcome::Success => {
                let r = record(AuditLevel::Info, SecurityEventType::TlsConnection, outcome, fields, "TLS connection established");
                assert(field_views(r.fields@) =~= seq![text("peer_addr"@, peer_addr@)]);
                Some(r)
            },
            AuditOutcome::Failure => {
                fields.push(reason_field(reason));
                let r = record(AuditLevel::Warn, SecurityEventType::TlsConnection, outcome, fields, "TLS connection failed");
                assert(field_views(r.fields@) =~= seq![text("peer_addr"@, peer_addr@), self::reason(reason_view(reason))]);
                Some(r)
            },
            AuditOutcome::Denied => None,
        }
    }

    /// Log a malicious packet detection event
    pub fn log_malicious_packet(packet_id: &str, source_node: &str, violation_type: &str, details: &str) -> (r: Option<AuditRecord>)
        ensures
            record_view(r) == malicious_record(packet_id@, source_node@, violation_type@, details@),
    {
        let mut fields: Vec<AuditField> = Vec::new();
        fields.push(text_field("packet_id", packet_id));
        fields.push(text_field("source_node", source_node));
        fields.push(text_field("violation_type", violation_type));
        fields.push(text_field("details", details));
        let r = record(AuditLevel::Error, SecurityEventType::MaliciousPacket, AuditOutcome::Denied, fields, "Malicious packet detected and rejected");
        assert(field_views(r.fields@) =~= seq![
            text("packet_id"@, packet_id@),
            text("source_node"@, source_node@),
            text("violation_type"@, violation_type@),
            text("details"@, details@),
        ]);
        Some(r)
    }

    /// Log a node lifecycle event (join/leave)
    pub fn log_node_lifecycle(node_id: &str, event: &str, outcome: AuditOutcome) -> (r: Option<AuditRecord>)
        ensures
            record_view(r) == lifecycle_record(node_id@, event@, outcome),
    {
        let mut fields: Vec<AuditField> = Vec::new();
        fields.push(text_field("node_id", node_id));
        fields.push(text_field("event", event));
        assert(field_views(fields@) =~= seq![text("node_id"@, node_id@), text("event"@, event@)]);
        match outcome {
            AuditOutcome::Success => Some(record(AuditLevel::Info, SecurityEventType::NodeLifecycle, outcome, fields, "Node lifecycle event")),
            AuditOutcome::Failure => Some(record(AuditLevel::Warn, SecurityEventType::NodeLifecycle, outcome, fields, "Node lifecycle event failed")),
            AuditOutcome::Denied => None,
        }
    }

    /// Log a coordinate update event
    pub fn log_coordinate_update(node_id: &str, old_version: u64, new_version: u64, outcome: AuditOutcome) -> (r: Option<AuditRecord>)
        ensures
            record_view(r) == coordinate_record(node_id@, old_version, new_version, outcome),
    {
        let mut fields: Vec<AuditField> = Vec::new();
        fields.push(text_field("node_id", node_id));
        fields.push(number_field("old_version", old_version));
        fields.push(number_field("new_version", new_version));
        let r = record(AuditLevel::Info, SecurityEventType::CoordinateUpdate, outcome, fields, "Coordinate update");
        assert(field_views(r.fields@) =~= seq![
            text("node_id"@, node_id@),
            number("old_version"@, old_version as nat),
            number("new_version"@, new_version as nat),
        ]);
        Some(r)
    }

    /// Log an API access event
    pub fn log_api_access(client_id: &str, method: &str, endpoint: &str, outcome: AuditOutcome, status_code: u16) -> (r: Option<AuditRecord>)
        ensures
            record_view(r) == api_access_record(client_id@, method@, endpoint@, outcome, status_code),
    {
        let mut fields: Vec<AuditField> = Vec::new();
        fields.push(text_field("client_id", client_id));
        fields.push(text_field("method", method));
        fields.push(text_field("endpoint", endpoint));
        fields.push(number_field("status_code", status_code as u64));
        assert(field_views(fields@) =~= seq![
            text("client_id"@, client_id@),
            text("method"@, method@),
            text("endpoint"@, endpoint@),
            number("status_code"@, status_code as nat),
        ]);
        match outcome {
            AuditOutcome::Success => Some(record(AuditLevel::Info, SecurityEventType::ApiAccess, outcome, fields, "API access")),
            _ => Some(record(AuditLevel::Warn, SecurityEventType::ApiAccess, outcome, fields, "API access failed or denied")),
        }
    }

    /// Log a configuration change event
    pub fn log_configuration_change(changed_by: &str, setting: &str, old_value: &str, new_value: &str) -> (r: Option<AuditRecord>)
        ensures
            record_view(r) == configuration_record(changed_by@, setting@, old_value@, new_value@),
    {
        let mut fields: Vec<AuditField> = Vec::new();
        fields.push(text_field("changed_by", changed_by));
        fields.push(text_field("setting", setting));
        fields.push(text_field("old_value", old_value));
        fields.push(text_field("new_value", new_value));
        let r = record(AuditLevel::Info, SecurityEventType::ConfigurationChange, AuditOutcome::Success, fields, "Configuration changed");
        assert(field_views(r.fields@) =~= seq![
            text("changed_by"@, changed_by@),
            text("setting"@, setting@),
            text("old_value"@, old_value@),
            text("new_value"@, new_value@),
        ]);
        Some(r)
    }
}

} // verus!
