//! The REST API's request validation, packet tracking and replies.

use base64::Engine;
use ed25519_dalek::Verifier;
use vstd::prelude::*;

verus! {

/// Delivery status enum
#[derive(Debug)]
pub enum DeliveryStatus {
    /// Packet is pending (not yet sent)
    Pending,
    /// Packet is in transit
    InTransit { current_node: String },
    /// Packet was delivered successfully
    Delivered { latency_ms: u64 },
    /// Packet delivery failed
    Failed { reason: String },
}

/// A delivery status as the contracts see it.
pub enum StatusView {
    Pending,
    InTransit { current_node: Seq<char> },
    Delivered { latency_ms: u64 },
    Failed { reason: Seq<char> },
}

impl View for DeliveryStatus {
    type V = StatusView;

    open spec fn view(&self) -> StatusView {
        match self {
            DeliveryStatus::Pending => StatusView::Pending,
            DeliveryStatus::InTransit { current_node } => StatusView::InTransit { current_node: current_node@ },
            DeliveryStatus::Delivered { latency_ms } => StatusView::Delivered { latency_ms: *latency_ms },
            DeliveryStatus::Failed { reason } => StatusView::Failed { reason: reason@ },
        }
    }
}

/// Packet status information
#[derive(Debug)]
pub struct PacketStatus {
    /// Unique packet ID
    pub id: String,
    /// Current delivery status
    pub status: DeliveryStatus,
    /// Number of hops taken
    pub hops: u32,
    /// Path taken (list of node IDs)
    pub path: Vec<String>,
    /// Timestamp when packet was created
    pub created_at: u64,
    /// Source node ID
    pub source: String,
    /// Destination node ID
    pub destination: String,
}

/// A packet status as the contracts see it.
pub struct PacketView {
    pub id: Seq<char>,
    pub status: StatusView,
    pub hops: u32,
    pub path: Seq<Seq<char>>,
    pub created_at: u64,
    pub source: Seq<char>,
    pub destination: Seq<char>,
}

impl View for PacketStatus {
    type V = PacketView;

    open spec fn view(&self) -> PacketView {
        PacketView {
            id: self.id@,
            status: self.status@,
            hops: self.hops,
            path: self.path@.map_values(|s: String| s@),
            created_at: self.created_at,
            source: self.source@,
            destination: self.destination@,
        }
    }
}


/// Request to send a packet
#[derive(Debug)]
pub struct SendPacketRequest {
    /// Destination node ID
    pub destination: String,
    /// Payload data (base64 encoded or raw string)
    pub payload: String,
    /// Optional TTL (defaults to 64)
    pub ttl: u32,
}

/// The TTL of a request that gives none.
pub fn default_ttl() -> (r: u32)
    ensures
        r == 64,
{
    64
}

/// Response from sending a packet
#[derive(Debug)]
pub struct SendPacketResponse {
    /// Unique packet ID for tracking
    pub packet_id: String,
    /// Initial status
    pub status: String,
    /// Message
    pub message: String,
}

/// API error type
#[derive(Debug)]
pub enum ApiError {
    /// Node not found
    NotFound(String),
    /// Invalid request
    BadRequest(String),
    /// Internal server error
    Internal(String),
    /// Unauthorized (authentication failed)
    Unauthorized(String),
    /// Rate limit exceeded
    TooManyRequests(String),
}


/// An API error as the contracts see it.
pub enum ErrorView {
    NotFound(Seq<char>),
    BadRequest(Seq<char>),
    Internal(Seq<char>),
    Unauthorized(Seq<char>),
    TooManyRequests(Seq<char>),
}

impl View for ApiError {
    type V = ErrorView;

    open spec fn view(&self) -> ErrorView {
        match self {
            ApiError::NotFound(m) => ErrorView::NotFound(m@),
            ApiError::BadRequest(m) => ErrorView::BadRequest(m@),
            ApiError::Internal(m) => ErrorView::Internal(m@),
            ApiError::Unauthorized(m) => ErrorView::Unauthorized(m@),
            ApiError::TooManyRequests(m) => ErrorView::TooManyRequests(m@),
        }
    }
}

/// The error of a result, as the contracts see it.
pub open spec fn error_of<T>(r: Result<T, ApiError>) -> Option<ErrorView> {
    match r {
        Ok(_) => None,
        Err(e) => Some(e@),
    }
}

impl ApiError {
    /// The HTTP status an error is answered with: 404, 400, 500, 401 and 429 for a
    /// missing node, a bad request, an internal error, a failed authentication and an
    /// exceeded rate limit.
    pub fn status_code(&self) -> (r: u16)
        ensures
            r == match self@ {
                ErrorView::NotFound(_) => 404u16,
                ErrorView::BadRequest(_) => 400u16,
                ErrorView::Internal(_) => 500u16,
                ErrorView::Unauthorized(_) => 401u16,
                ErrorView::TooManyRequests(_) => 429u16,
            },
    {
        match self {
            ApiError::NotFound(_) => 404,
            ApiError::BadRequest(_) => 400,
            ApiError::Internal(_) => 500,
            ApiError::Unauthorized(_) => 401,
            ApiError::TooManyRequests(_) => 429,
        }
    }
}

/// The key a request is rate-limited under: the node it names in its `X-Node-Id`
/// header, or `"default"` for a request that names none.
pub fn rate_limit_key(node_id: Option<&str>) -> (r: String)
    ensures
        r@ == match node_id {
            Some(id) => id@,
            None => "default"@,
        },
{
    match node_id {
        Some(id) => id.to_owned(),
        None => "default".to_owned(),
    }
}

impl Clone for DeliveryStatus {
    fn clone(&self) -> (r: Self)
        ensures
            r@ == self@,
    {
        match self {
            DeliveryStatus::Pending => DeliveryStatus::Pending,
            DeliveryStatus::InTransit { current_node } => DeliveryStatus::InTransit { current_node: current_node.clone() },
            DeliveryStatus::Delivered { latency_ms } => DeliveryStatus::Delivered { latency_ms: *latency_ms },
            DeliveryStatus::Failed { reason } => DeliveryStatus::Failed { reason: reason.clone() },
        }
    }
}

/// Copies a vector of strings.
fn copy_strings(v: &Vec<String>) -> (r: Vec<String>)
    ensures
        r@ == v@,
{
    let mut out: Vec<String> = Vec::new();
    let mut i: usize = 0;
    while i < v.len()
        invariant
            i <= v.len(),
            out@ == v@.take(i as int),
        decreases v.len() - i,
    {
        out.push(v[i].clone());
        i = i + 1;
        assert(out@ =~= v@.take(i as int));
    }
    assert(v@.take(i as int) =~= v@);
    out
}

impl Clone for PacketStatus {
    fn clone(&self) -> (r: Self)
        ensures
            r@ == self@,
    {
        PacketStatus {
            id: self.id.clone(),
            status: self.status.clone(),
            hops: self.hops,
            path: copy_strings(&self.path),
            created_at: self.created_at,
            source: self.source.clone(),
            destination: self.destination.clone(),
        }
    }
}

/// Builds `a + b + c`.
fn concat3(a: &str, b: &str, c: &str) -> (r: String)
    ensures
        r@ == a@ + b@ + c@,
{
    let mut out = a.to_owned();
    out.append(b);
    out.append(c);
    out
}

/// Builds `prefix + s`.
fn prefixed(prefix: &str, s: &str) -> (r: String)
    ensures
        r@ == prefix@ + s@,
{
    let mut out = prefix.to_owned();
    out.append(s);
    out
}

/// Why a send request is refused, if it is: an empty destination, or a TTL outside
/// `1..=255`, in that order.
pub open spec fn request_error(destination: Seq<char>, ttl: u32) -> Option<ErrorView> {
    if destination.len() == 0 {
        Some(ErrorView::BadRequest("Destination cannot be empty"@))
    } else if ttl == 0 || ttl > 255 {
        Some(ErrorView::BadRequest("TTL must be between 1 and 255"@))
    } else {
        None
    }
}

/// Validates a send request.
pub fn validate_send_request(request: &SendPacketRequest) -> (r: Result<(), ApiError>)
    ensures
        error_of(r) == request_error(request.destination@, request.ttl),
{
    if request.destination.as_str().is_empty() {
        return Err(ApiError::BadRequest("Destination cannot be empty".to_owned()));
    }
    if request.ttl == 0 || request.ttl > 255 {
        return Err(ApiError::BadRequest("TTL must be between 1 and 255".to_owned()));
    }
    Ok(())
}

/// Only the local node's neighbors can be listed.
pub fn check_neighbors_query(id: &str, local_id: &str) -> (r: Result<(), ApiError>)
    ensures
        error_of(r) == if id@ == local_id@ {
            None
        } else {
            Some(ErrorView::BadRequest("Can only query local node's neighbors"@))
        },
{
    let a = id.to_owned();
    let b = local_id.to_owned();
    if a != b {
        return Err(ApiError::BadRequest("Can only query local node's neighbors".to_owned()));
    }
    Ok(())
}

/// Where the status of packet `id` is kept.
pub open spec fn find_packet(entries: Seq<PacketView>, id: Seq<char>) -> Option<int>
    decreases entries.len(),
{
    if entries.len() == 0 {
        None
    } else if entries.last().id == id {
        Some(entries.len() - 1)
    } else {
        find_packet(entries.drop_last(), id)
    }
}

/// The tracked packets after recording status `p`: it replaces the status of a packet
/// with the same identifier.
pub open spec fn with_status(entries: Seq<PacketView>, p: PacketView) -> Seq<PacketView> {
    match find_packet(entries, p.id) {
        Some(i) => entries.update(i, p),
        None => entries.push(p),
    }
}

/// The tracked packets after the status of packet `id` becomes `status`.
pub open spec fn with_state(entries: Seq<PacketView>, id: Seq<char>, status: StatusView) -> Seq<PacketView> {
    match find_packet(entries, id) {
        Some(i) => entries.update(i, PacketView { status, ..entries[i] }),
        None => entries,
    }
}

/// The status of a packet that has just been accepted for sending.
pub open spec fn pending_status(packet_id: Seq<char>, local_id: Seq<char>, destination: Seq<char>, now: u64) -> PacketView {
    PacketView {
        id: packet_id,
        status: StatusView::Pending,
        hops: 0,
        path: seq![local_id],
        created_at: now,
        source: local_id,
        destination,
    }
}

/// Packet tracking: the status of each packet, by identifier.
pub struct PacketTracker {
    entries: Vec<PacketStatus>,
}

impl View for PacketTracker {
    type V = Seq<PacketView>;

    closed spec fn view(&self) -> Seq<PacketView> {
        self.entries@.map_values(|p: PacketStatus| p@)
    }
}

impl PacketTracker {
    /// No packets tracked.
    pub fn new() -> (r: Self)
        ensures
            r@.len() == 0,
    {
        PacketTracker { entries: Vec::new() }
    }

    fn slot(&self, id: &str) -> (r: Option<usize>)
        ensures
            r matches Some(i) ==> find_packet(self@, id@) == Some(i as int) && i < self@.len(),
            r is None ==> find_packet(self@, id@) is None,
    {
        let target = id.to_owned();
        let mut i = self.entries.len();
        assert(self@.take(i as int) =~= self@);
        while i > 0
            invariant
                i <= self.entries.len(),
                target@ == id@,
                find_packet(self@, id@) == find_packet(self@.take(i as int), id@),
            decreases i,
        {
            if self.entries[i - 1].id == target {
                return Some(i - 1);
            }
            assert(self@.take(i as int).drop_last() =~= self@.take(i - 1));
            i = i - 1;
        }
        assert(self@.take(0) =~= Seq::<PacketView>::empty());
        None
    }

    /// Records a packet's status, replacing any status with the same identifier.
    pub fn insert(&mut self, status: PacketStatus)
        ensures
            final(self)@ == with_status(old(self)@, status@),
    {
        let ghost sv = status@;
        let ghost before = self@;
        match self.slot(status.id.as_str()) {
            Some(i) => {
                self.entries.set(i, status);
                assert(self@ =~= before.update(i as int, sv));
            },
            None => {
                self.entries.push(status);
                assert(self@ =~= before.push(sv));
            },
        }
    }

    /// Sets the delivery status of packet `id`, if it is tracked.
    pub fn set_status(&mut self, id: &str, status: DeliveryStatus)
        ensures
            final(self)@ == with_state(old(self)@, id@, status@),
    {
        let ghost sv = status@;
        let ghost before = self@;
        match self.slot(id) {
            Some(i) => {
                self.entries[i].status = status;
                assert(self@ =~= before.update(i as int, PacketView { status: sv, ..before[i as int] }));
            },
            None => {},
        }
    }

    /// GET /api/v1/packets/:id - the status of a packet, or not found.
    pub fn get_packet_status(&self, id: &str) -> (r: Result<PacketStatus, ApiError>)
        ensures
            match find_packet(self@, id@) {
                Some(i) => r is Ok && r->Ok_0@ == self@[i],
                None => error_of(r) == Some(ErrorView::NotFound("Packet "@ + id@ + " not found"@)),
            },
    {
        match self.slot(id) {
            Some(i) => Ok(self.entries[i].clone()),
            None => Err(ApiError::NotFound(concat3("Packet ", id, " not found"))),
        }
    }

    /// The first half of POST /api/v1/packets: validates the request and, when it is
    /// valid, tracks the packet as pending from the local node.
    pub fn start_send(&mut self, local_id: &str, request: &SendPacketRequest, packet_id: &str, now: u64) -> (r: Result<(), ApiError>)
        ensures
            error_of(r) == request_error(request.destination@, request.ttl),
            r is Ok ==> final(self)@ == with_status(old(self)@, pending_status(packet_id@, local_id@, request.destination@, now)),
            r is Err ==> final(self)@ == old(self)@,
    {
        match validate_send_request(request) {
            Err(e) => return Err(e),
            Ok(()) => {},
        }
        let mut path: Vec<String> = Vec::new();
        path.push(local_id.to_owned());
        let status = PacketStatus {
            id: packet_id.to_owned(),
            status: DeliveryStatus::Pending,
            hops: 0,
            path,
            created_at: now,
            source: local_id.to_owned(),
            destination: request.destination.clone(),
        };
        assert(status@.path =~= seq![local_id@]);
        self.insert(status);
        Ok(())
    }

    /// The first half of POST /api/v1/packets as a request arrives: a valid request is
    /// given a fresh random identifier (a hyphenated UUID) and tracked as pending from
    /// the local node since the current clock reading; the identifier is returned.
    pub fn begin_send(&mut self, local_id: &str, request: &SendPacketRequest) -> (r: Result<String, ApiError>)
        ensures
            error_of(r) == request_error(request.destination@, request.ttl),
            r is Err ==> final(self)@ == old(self)@,
            r matches Ok(id) ==> id@.len() == 36 && exists|now: u64|
                final(self)@ == with_status(old(self)@, pending_status(id@, local_id@, request.destination@, now)),
    {
        let packet_id = crate::chat::new_message_id();
        let now = crate::clock::now_millis();
        match self.start_send(local_id, request, packet_id.as_str(), now) {
            Ok(()) => Ok(packet_id),
            Err(e) => Err(e),
        }
    }

    /// The second half of POST /api/v1/packets: records how the send went. A packet
    /// handed to the network is in transit at the local node; one that could not be
    /// sent has failed, and the request fails with an internal error.
    pub fn finish_send(&mut self, packet_id: &str, local_id: &str, sent: Result<(), String>) -> (r: Result<SendPacketResponse, ApiError>)
        ensures
            match sent {
                Ok(_) => {
                    &&& final(self)@ == with_state(old(self)@, packet_id@, StatusView::InTransit { current_node: local_id@ })
                    &&& r is Ok
                    &&& r->Ok_0.packet_id@ == packet_id@
                    &&& r->Ok_0.status@ == "in_transit"@
                    &&& r->Ok_0.message@ == "Packet sent successfully"@
                },
                Err(e) => {
                    &&& final(self)@ == with_state(old(self)@, packet_id@, StatusView::Failed { reason: e@ })
                    &&& error_of(r) == Some(ErrorView::Internal("Failed to send packet: "@ + e@))
                },
            },
    {
        match sent {
            Ok(()) => {
                self.set_status(packet_id, DeliveryStatus::InTransit { current_node: local_id.to_owned() });
                Ok(SendPacketResponse {
                    packet_id: packet_id.to_owned(),
                    status: "in_transit".to_owned(),
                    message: "Packet sent successfully".to_owned(),
                })
            },
            Err(e) => {
                let mut message = "Failed to send packet: ".to_owned();
                message.append(e.as_str());
                self.set_status(packet_id, DeliveryStatus::Failed { reason: e });
                Err(ApiError::Internal(message))
            },
        }
    }
}


/// A status recorded for a packet is the one found for it afterwards.
pub proof fn lemma_tracker_read_after_write(entries: Seq<PacketView>, p: PacketView)
    ensures
        find_packet(with_status(entries, p), p.id) matches Some(i) && with_status(entries, p)[i] == p,
{
    match find_packet(entries, p.id) {
        Some(i) => {
            lemma_find_packet_last(entries, p.id);
            lemma_find_packet_update(entries, p.id, i, p);
        },
        None => {
            let w = entries.push(p);
            assert(w.drop_last() =~= entries);
        },
    }
}

/// The lookup finds the last status with the identifier.
proof fn lemma_find_packet_last(entries: Seq<PacketView>, id: Seq<char>)
    ensures
        find_packet(entries, id) matches Some(i) ==> 0 <= i < entries.len() && entries[i].id == id
            && forall|j: int| i < j < entries.len() ==> (#[trigger] entries[j]).id != id,
    decreases entries.len(),
{
    if entries.len() > 0 && entries.last().id != id {
        lemma_find_packet_last(entries.drop_last(), id);
        assert forall|j: int| 0 <= j < entries.len() - 1 implies entries.drop_last()[j] == entries[j] by {}
    }
}

/// Replacing the found status keeps it the one found.
proof fn lemma_find_packet_update(entries: Seq<PacketView>, id: Seq<char>, i: int, p: PacketView)
    requires
        0 <= i < entries.len(),
        p.id == id,
        forall|j: int| i < j < entries.len() ==> (#[trigger] entries[j]).id != id,
    ensures
        find_packet(entries.update(i, p), id) == Some(i),
    decreases entries.len(),
{
    let u = entries.update(i, p);
    if i < entries.len() - 1 {
        assert(u.drop_last() =~= entries.drop_last().update(i, p));
        lemma_find_packet_update(entries.drop_last(), id, i, p);
    }
}


#[verifier::external_type_specification]
#[verifier::external_body]
pub struct ExVerifyingKey(ed25519_dalek::VerifyingKey);

/// The bytes that the standard base64 engine decodes `text` to, or `None` where it
/// refuses the text.
pub uninterp spec fn base64_standard_decode(text: Seq<char>) -> Option<Seq<u8>>;

/// Whether `ed25519_dalek::VerifyingKey::from_bytes` accepts the 32 bytes `bytes`
/// (they must decompress to a point of the curve).
pub uninterp spec fn ed25519_key_accepted(bytes: Seq<u8>) -> bool;

/// Calls `Engine::decode` of `base64::engine::general_purpose::STANDARD` on the UTF-8
/// bytes of `text`. The contract claims that the outcome is determined by the text.
#[verifier::external_body]
fn decode_base64(text: &str) -> (r: Option<Vec<u8>>)
    ensures
        match r {
            Some(v) => base64_standard_decode(text@) == Some(v@),
            None => base64_standard_decode(text@) is None,
        },
{
    base64::engine::general_purpose::STANDARD.decode(text).ok()
}

/// Calls `ed25519_dalek::VerifyingKey::from_bytes` on the 32 bytes of `bytes`; an
/// error is handed back as its `Display` text. The contract claims that success is
/// determined by the bytes; the text of the error is not stated.
#[verifier::external_body]
fn verifying_key_from_bytes(bytes: &[u8]) -> (r: Result<ed25519_dalek::VerifyingKey, String>)
    requires
        bytes@.len() == 32,
    ensures
        r is Ok <==> ed25519_key_accepted(bytes@),
{
    let array: &[u8; 32] = bytes.try_into().unwrap();
    ed25519_dalek::VerifyingKey::from_bytes(array).map_err(|e| e.to_string())
}

/// Whether `signature` is a valid Ed25519 signature of `message` under the public key
/// `key`, as `ed25519_dalek` decides it.
pub uninterp spec fn ed25519_verifies(key: Seq<u8>, message: Seq<u8>, signature: Seq<u8>) -> bool;

/// Builds the key with `ed25519_dalek::VerifyingKey::from_bytes` and the signature with
/// `ed25519_dalek::Signature::from_slice`, and reports whether `Verifier::verify`
/// accepts the signature of `message`. Both constructions succeed on the inputs that
/// `requires` admits. The contract claims that the outcome is determined by the key's
/// bytes, the message and the signature's bytes: the crate decompresses the key from
/// its bytes and checks the signature's components against them.
#[verifier::external_body]
fn verify_ed25519(key_bytes: &[u8], message: &[u8], signature: &[u8]) -> (r: bool)
    requires
        key_bytes@.len() == 32,
        ed25519_key_accepted(key_bytes@),
        signature@.len() == 64,
    ensures
        r == ed25519_verifies(key_bytes@, message@, signature@),
{
    let array: &[u8; 32] = key_bytes.try_into().unwrap();
    let key = ed25519_dalek::VerifyingKey::from_bytes(array).unwrap();
    let sig = ed25519_dalek::Signature::from_slice(signature).unwrap();
    key.verify(message, &sig).is_ok()
}

/// The decimal digits of `n` as ASCII bytes, most significant first, as `u64`'s
/// `Display` writes them.
pub open spec fn decimal_bytes(n: nat) -> Seq<u8>
    decreases n,
{
    if n < 10 {
        seq![(48 + n) as u8]
    } else {
        decimal_bytes(n / 10).push((48 + n % 10) as u8)
    }
}

/// Whether every byte is an ASCII decimal digit.
pub open spec fn all_digits(b: Seq<u8>) -> bool {
    forall|i: int| 0 <= i < b.len() ==> 48 <= #[trigger] b[i] <= 57
}

/// The value of a run of ASCII decimal digits.
pub open spec fn digits_value(b: Seq<u8>) -> nat
    decreases b.len(),
{
    if b.len() == 0 {
        0
    } else {
        digits_value(b.drop_last()) * 10 + (b.last() - 48) as nat
    }
}

/// What `u64::from_str` gives for the text whose UTF-8 bytes are `b`: an optional `+`
/// followed by at least one decimal digit, with a value that fits in 64 bits.
pub open spec fn parse_u64_text(b: Seq<u8>) -> Option<u64> {
    let d = if b.len() > 0 && b[0] == 43 {
        b.drop_first()
    } else {
        b
    };
    if d.len() > 0 && all_digits(d) && digits_value(d) <= u64::MAX {
        Some(digits_value(d) as u64)
    } else {
        None
    }
}

/// The message that a node signs to authenticate: its identifier, a colon and the
/// timestamp in decimal, as UTF-8 bytes.
pub open spec fn auth_message_bytes(node_id: Seq<char>, timestamp: u64) -> Seq<u8> {
    vstd::utf8::encode_utf8(node_id) + seq![58u8] + decimal_bytes(timestamp as nat)
}

/// A longer run of digits is worth at least as much as its prefix.
proof fn lemma_digits_value_prefix(b: Seq<u8>, k: int)
    requires
        all_digits(b),
        0 <= k <= b.len(),
    ensures
        digits_value(b.take(k)) <= digits_value(b),
    decreases b.len(),
{
    if k < b.len() {
        assert(b.drop_last().take(k) =~= b.take(k));
        assert(all_digits(b.drop_last())) by {
            assert forall|i: int| 0 <= i < b.drop_last().len() implies 48 <= #[trigger] b.drop_last()[i] <= 57 by {
                assert(b.drop_last()[i] == b[i]);
            }
        }
        lemma_digits_value_prefix(b.drop_last(), k);
    } else {
        assert(b.take(k) =~= b);
    }
}

/// Parses a decimal timestamp as `u64::from_str` does.
pub fn parse_timestamp(text: &str) -> (r: Option<u64>)
    ensures
        r == parse_u64_text(vstd::utf8::encode_utf8(text@)),
{
    let b = text.as_bytes();
    let ghost bs = b@;
    let n = b.len();
    let start: usize = if n > 0 && b[0] == 43u8 {
        1
    } else {
        0
    };
    let ghost d = bs.skip(start as int);
    proof {
        if start == 1 {
            assert(d =~= bs.drop_first());
        } else {
            assert(d =~= bs);
        }
        assert(parse_u64_text(bs) == if d.len() > 0 && all_digits(d) && digits_value(d) <= u64::MAX {
            Some(digits_value(d) as u64)
        } else {
            None
        });
    }
    if start == n {
        return None;
    }
    let mut value: u64 = 0;
    let mut i: usize = start;
    assert(d.take(0) =~= Seq::<u8>::empty());
    while i < n
        invariant
            start <= i <= n,
            n == bs.len(),
            bs == vstd::utf8::encode_utf8(text@),
            parse_u64_text(bs) == if d.len() > 0 && all_digits(d) && digits_value(d) <= u64::MAX {
                Some(digits_value(d) as u64)
            } else {
                None
            },
            b@ == bs,
            d == bs.skip(start as int),
            all_digits(d.take(i - start)),
            value as nat == digits_value(d.take(i - start)),
        decreases n - i,
    {
        let c = b[i];
        let ghost k = i - start;
        assert(d[k as int] == c);
        if c < 48u8 || c > 57u8 {
            assert(!all_digits(d));
            return None;
        }
        let digit = (c - 48u8) as u64;
        assert(d.take(k + 1).drop_last() =~= d.take(k as int));
        assert(d.take(k + 1).last() == c);
        assert(all_digits(d.take(k + 1))) by {
            assert forall|j: int| 0 <= j < d.take(k + 1).len() implies 48 <= #[trigger] d.take(k + 1)[j] <= 57 by {
                if j < k {
                    assert(d.take(k + 1)[j] == d.take(k as int)[j]);
                }
            }
        }
        if value > (u64::MAX - digit) / 10 {
            proof {
                assert(digits_value(d.take(k + 1)) == value * 10 + digit);
                assert(value * 10 + digit > u64::MAX) by (nonlinear_arith)
                    requires
                        value > (u64::MAX - digit) / 10,
                        digit <= 9,
                ;
                if all_digits(d) {
                    lemma_digits_value_prefix(d, k + 1);
                }
            }
            return None;
        }
        assert(value * 10 + digit <= u64::MAX) by (nonlinear_arith)
            requires
                value <= (u64::MAX - digit) / 10,
                digit <= 9,
        ;
        value = value * 10 + digit;
        i = i + 1;
    }
    assert(d.take(n - start) =~= d);
    Some(value)
}

/// Appends the decimal digits of `n`.
fn push_decimal(out: &mut Vec<u8>, n: u64)
    ensures
        final(out)@ == old(out)@ + decimal_bytes(n as nat),
    decreases n,
{
    if n >= 10 {
        push_decimal(out, n / 10);
    }
    let digit = (48 + n % 10) as u8;
    let ghost before = out@;
    out.push(digit);
    proof {
        if n >= 10 {
            assert(decimal_bytes(n as nat) == decimal_bytes((n / 10) as nat).push(digit));
            assert(out@ =~= old(out)@ + decimal_bytes(n as nat));
        } else {
            assert(out@ =~= old(out)@ + decimal_bytes(n as nat));
        }
    }
}

/// The message a node signs to authenticate at `timestamp`: `"{node_id}:{timestamp}"`.
pub fn auth_message(node_id: &str, timestamp: u64) -> (r: Vec<u8>)
    ensures
        r@ == auth_message_bytes(node_id@, timestamp),
{
    let mut out = vstd::slice::slice_to_vec(node_id.as_bytes());
    out.push(58u8);
    push_decimal(&mut out, timestamp);
    assert(out@ =~= auth_message_bytes(node_id@, timestamp));
    out
}

/// Formatting a timestamp and parsing it back gives the timestamp.
pub proof fn lemma_decimal_round_trip(n: u64)
    ensures
        parse_u64_text(decimal_bytes(n as nat)) == Some(n),
{
    lemma_decimal_digits(n as nat);
    assert(decimal_bytes(n as nat)[0] != 43);
}

proof fn lemma_decimal_digits(n: nat)
    ensures
        decimal_bytes(n).len() > 0,
        all_digits(decimal_bytes(n)),
        digits_value(decimal_bytes(n)) == n,
    decreases n,
{
    if n >= 10 {
        lemma_decimal_digits(n / 10);
        let s = decimal_bytes(n);
        assert(s.drop_last() =~= decimal_bytes(n / 10));
        assert(s.last() == (48 + n % 10) as u8);
        assert((48 + n % 10) as u8 == 48 + n % 10);
        assert((n / 10) * 10 + n % 10 == n);
        assert(digits_value(s) == digits_value(s.drop_last()) * 10 + (s.last() - 48) as nat);
        assert(digits_value(s.drop_last()) == n / 10);
        assert forall|i: int| 0 <= i < s.len() implies 48 <= #[trigger] s[i] <= 57 by {
            if i < s.len() - 1 {
                assert(s[i] == decimal_bytes(n / 10)[i]);
            }
        }
    } else {
        assert(decimal_bytes(n).drop_last() =~= Seq::<u8>::empty());
        assert(decimal_bytes(n).last() == (48 + n) as u8);
        assert((48 + n) as u8 == 48 + n);
        assert(digits_value(decimal_bytes(n).drop_last()) == 0);
        assert(digits_value(decimal_bytes(n)) == digits_value(decimal_bytes(n).drop_last()) * 10 + (decimal_bytes(n).last() - 48) as nat);
    }
}

/// A registered key, as the contracts see it: the node and the key's 32 bytes.
pub struct KeyView {
    pub node_id: Seq<char>,
    pub key_bytes: Seq<u8>,
}

struct AuthEntry {
    node_id: String,
    key_bytes: Vec<u8>,
}

/// Authentication keys, by node identifier.
pub struct AuthKeys {
    entries: Vec<AuthEntry>,
}

impl View for AuthKeys {
    type V = Seq<KeyView>;

    closed spec fn view(&self) -> Seq<KeyView> {
        self.entries@.map_values(|e: AuthEntry| KeyView { node_id: e.node_id@, key_bytes: e.key_bytes@ })
    }
}

/// Where the key of `node_id` is kept.
pub open spec fn find_key(keys: Seq<KeyView>, node_id: Seq<char>) -> Option<int>
    decreases keys.len(),
{
    if keys.len() == 0 {
        None
    } else if keys.last().node_id == node_id {
        Some(keys.len() - 1)
    } else {
        find_key(keys.drop_last(), node_id)
    }
}

/// The keys after registering `key_bytes` for `node_id`: a key registered before for
/// that node is replaced.
pub open spec fn with_key(keys: Seq<KeyView>, node_id: Seq<char>, key_bytes: Seq<u8>) -> Seq<KeyView> {
    match find_key(keys, node_id) {
        Some(i) => keys.update(i, KeyView { node_id, key_bytes }),
        None => keys.push(KeyView { node_id, key_bytes }),
    }
}

/// The key registered for `node_id`, if any.
pub open spec fn key_of(keys: Seq<KeyView>, node_id: Seq<char>) -> Option<Seq<u8>> {
    match find_key(keys, node_id) {
        Some(i) => Some(keys[i].key_bytes),
        None => None,
    }
}

/// Every registered key is 32 bytes that `VerifyingKey::from_bytes` accepts.
pub open spec fn keys_wf(keys: Seq<KeyView>) -> bool {
    forall|i: int| 0 <= i < keys.len() ==> (#[trigger] keys[i]).key_bytes.len() == 32 && ed25519_key_accepted(keys[i].key_bytes)
}

/// Why the signature that `node_id` gave for `"{node_id}:{timestamp}"` is refused, if
/// it is: the node has no key, or else the signature is not 64 bytes (what
/// `Signature::from_slice` refuses), or else it is not valid under the node's key.
pub open spec fn signature_refusal(keys: Seq<KeyView>, node_id: Seq<char>, timestamp: u64, signature: Seq<u8>) -> Option<ErrorView> {
    match key_of(keys, node_id) {
        None => Some(ErrorView::Unauthorized("Unknown node ID: "@ + node_id)),
        Some(k) => if signature.len() != 64 {
            Some(ErrorView::Unauthorized("Invalid signature format"@))
        } else if ed25519_verifies(k, auth_message_bytes(node_id, timestamp), signature) {
            None
        } else {
            Some(ErrorView::Unauthorized("Signature verification failed"@))
        },
    }
}

/// What the lookup finds is in range and belongs to the node.
pub proof fn lemma_find_key_found(keys: Seq<KeyView>, node_id: Seq<char>)
    ensures
        find_key(keys, node_id) matches Some(i) ==> 0 <= i < keys.len() && keys[i].node_id == node_id,
    decreases keys.len(),
{
    if keys.len() > 0 && keys.last().node_id != node_id {
        lemma_find_key_found(keys.drop_last(), node_id);
    }
}

impl AuthKeys {
    /// The invariant of the keys.
    pub open spec fn wf(&self) -> bool {
        keys_wf(self@)
    }

    /// No key registered.
    pub fn new() -> (r: Self)
        ensures
            r@.len() == 0,
            r.wf(),
    {
        let r = AuthKeys { entries: Vec::new() };
        assert(r@ =~= Seq::<KeyView>::empty());
        r
    }

    fn slot(&self, node_id: &str) -> (r: Option<usize>)
        ensures
            r matches Some(i) ==> find_key(self@, node_id@) == Some(i as int) && i < self@.len(),
            r is None ==> find_key(self@, node_id@) is None,
    {
        let target = node_id.to_owned();
        let mut i = self.entries.len();
        assert(self@.take(i as int) =~= self@);
        while i > 0
            invariant
                i <= self.entries.len(),
                target@ == node_id@,
                find_key(self@, node_id@) == find_key(self@.take(i as int), node_id@),
            decreases i,
        {
            if self.entries[i - 1].node_id == target {
                return Some(i - 1);
            }
            assert(self@.take(i as int).drop_last() =~= self@.take(i - 1));
            i = i - 1;
        }
        assert(self@.take(0) =~= Seq::<KeyView>::empty());
        None
    }

    /// Whether a key is registered for `node_id`.
    pub fn is_registered(&self, node_id: &str) -> (r: bool)
        ensures
            r == (key_of(self@, node_id@) is Some),
    {
        self.slot(node_id).is_some()
    }

    /// Checks the signature that `node_id` gave for `"{node_id}:{timestamp}"`
    /// against the key registered for it.
    pub fn check_signature(&self, node_id: &str, timestamp: u64, signature: &[u8]) -> (r: Result<(), ApiError>)
        requires
            self.wf(),
        ensures
            error_of(r) == signature_refusal(self@, node_id@, timestamp, signature@),
    {
        let i = match self.slot(node_id) {
            Some(i) => i,
            None => {
                return Err(ApiError::Unauthorized(prefixed("Unknown node ID: ", node_id)));
            },
        };
        if signature.len() != 64 {
            return Err(ApiError::Unauthorized("Invalid signature format".to_owned()));
        }
        let message = auth_message(node_id, timestamp);
        let key_bytes = self.entries[i].key_bytes.as_slice();
        assert(key_bytes@ == self@[i as int].key_bytes);
        if verify_ed25519(key_bytes, message.as_slice(), signature) {
            Ok(())
        } else {
            Err(ApiError::Unauthorized("Signature verification failed".to_owned()))
        }
    }
}

/// Register a public key for authentication
pub fn register_auth_key(keys: &mut AuthKeys, node_id: &str, public_key_bytes: &[u8]) -> (r: Result<(), String>)
    requires
        old(keys).wf(),
    ensures
        final(keys).wf(),
        r is Ok <==> public_key_bytes@.len() == 32 && ed25519_key_accepted(public_key_bytes@),
        r is Ok ==> final(keys)@ == with_key(old(keys)@, node_id@, public_key_bytes@),
        r is Err ==> final(keys)@ == old(keys)@,
        public_key_bytes@.len() != 32 ==> (r matches Err(e) && e@ == "Invalid public key length (expected 32 bytes)"@),
        public_key_bytes@.len() == 32 ==> (r matches Err(e) ==> ("Invalid public key: "@).is_prefix_of(e@)),
{
    if public_key_bytes.len() != 32 {
        return Err("Invalid public key length (expected 32 bytes)".to_owned());
    }
    match verifying_key_from_bytes(public_key_bytes) {
        Ok(_) => {},
        Err(text) => {
            let e = prefixed("Invalid public key: ", text.as_str());
            assert(("Invalid public key: "@).is_prefix_of(e@)) by {
                assert(e@.take("Invalid public key: "@.len() as int) =~= "Invalid public key: "@);
            }
            return Err(e);
        },
    }
    let entry = AuthEntry { node_id: node_id.to_owned(), key_bytes: vstd::slice::slice_to_vec(public_key_bytes) };
    let ghost before = keys@;
    let ghost kv = KeyView { node_id: node_id@, key_bytes: public_key_bytes@ };
    match keys.slot(node_id) {
        Some(i) => {
            keys.entries.set(i, entry);
            assert(keys@ =~= before.update(i as int, kv));
        },
        None => {
            keys.entries.push(entry);
            assert(keys@ =~= before.push(kv));
        },
    }
    Ok(())
}

/// The text of an optional header.
pub open spec fn header_text(h: Option<&str>) -> Option<Seq<char>> {
    match h {
        Some(s) => Some(s@),
        None => None,
    }
}

/// How far apart two clock readings are.
pub open spec fn time_gap(a: u64, b: u64) -> nat {
    if a > b {
        (a - b) as nat
    } else {
        (b - a) as nat
    }
}

/// Why a request fails authentication before its signature is looked at, if it does:
/// a missing header, a timestamp that does not parse or lies more than five minutes
/// from `now_ms`, a node without a registered key, or a signature that is not base64,
/// in that order.
pub open spec fn auth_precheck(
    keys: Seq<KeyView>,
    node_id: Option<Seq<char>>,
    signature_b64: Option<Seq<char>>,
    timestamp: Option<Seq<char>>,
    now_ms: u64,
) -> Option<ErrorView> {
    if node_id is None {
        Some(ErrorView::Unauthorized("Missing X-Node-Id header"@))
    } else if signature_b64 is None {
        Some(ErrorView::Unauthorized("Missing X-Signature header"@))
    } else if timestamp is None {
        Some(ErrorView::Unauthorized("Missing X-Timestamp header"@))
    } else if parse_u64_text(vstd::utf8::encode_utf8(timestamp->0)) is None {
        Some(ErrorView::Unauthorized("Invalid timestamp format"@))
    } else if time_gap(now_ms, parse_u64_text(vstd::utf8::encode_utf8(timestamp->0))->0) > 300_000 {
        Some(ErrorView::Unauthorized("Timestamp too old or in future"@))
    } else if key_of(keys, node_id->0) is None {
        Some(ErrorView::Unauthorized("Unknown node ID: "@ + node_id->0))
    } else if base64_standard_decode(signature_b64->0) is None {
        Some(ErrorView::Unauthorized("Invalid signature encoding"@))
    } else {
        None
    }
}

/// Why a request is refused authentication at `now_ms`, if it is: the first failed
/// check before the signature (`auth_precheck`), or else the refusal of the decoded
/// signature for the parsed timestamp.
pub open spec fn auth_refusal(
    keys: Seq<KeyView>,
    node_id: Option<Seq<char>>,
    signature_b64: Option<Seq<char>>,
    timestamp: Option<Seq<char>>,
    now_ms: u64,
) -> Option<ErrorView> {
    match auth_precheck(keys, node_id, signature_b64, timestamp, now_ms) {
        Some(e) => Some(e),
        None => signature_refusal(
            keys,
            node_id->0,
            parse_u64_text(vstd::utf8::encode_utf8(timestamp->0))->0,
            base64_standard_decode(signature_b64->0)->0,
        ),
    }
}

/// Authenticates a request at time `now_ms` (milliseconds since the Unix epoch) from
/// its `X-Node-Id`, `X-Signature` and `X-Timestamp` headers: the node must have a
/// registered key, the timestamp must lie within five minutes of `now_ms`, and the
/// base64 signature must be the node's Ed25519 signature of `"{node_id}:{timestamp}"`.
/// Nothing is checked when authentication is not required.
pub fn authenticate_at(
    keys: &AuthKeys,
    require_auth: bool,
    node_id: Option<&str>,
    signature_b64: Option<&str>,
    timestamp: Option<&str>,
    now_ms: u64,
) -> (r: Result<(), ApiError>)
    requires
        keys.wf(),
    ensures
        !require_auth ==> r is Ok,
        require_auth ==> error_of(r) == auth_refusal(keys@, header_text(node_id), header_text(signature_b64), header_text(timestamp), now_ms),
{
    if !require_auth {
        return Ok(());
    }
    let node = match node_id {
        Some(n) => n,
        None => {
            return Err(ApiError::Unauthorized("Missing X-Node-Id header".to_owned()));
        },
    };
    let sig_text = match signature_b64 {
        Some(s) => s,
        None => {
            return Err(ApiError::Unauthorized("Missing X-Signature header".to_owned()));
        },
    };
    let ts_text = match timestamp {
        Some(t) => t,
        None => {
            return Err(ApiError::Unauthorized("Missing X-Timestamp header".to_owned()));
        },
    };
    let ts = match parse_timestamp(ts_text) {
        Some(t) => t,
        None => {
            return Err(ApiError::Unauthorized("Invalid timestamp format".to_owned()));
        },
    };
    let gap = if now_ms > ts {
        now_ms - ts
    } else {
        ts - now_ms
    };
    if gap > 300_000 {
        return Err(ApiError::Unauthorized("Timestamp too old or in future".to_owned()));
    }
    if !keys.is_registered(node) {
        return Err(ApiError::Unauthorized(prefixed("Unknown node ID: ", node)));
    }
    let sig_bytes = match decode_base64(sig_text) {
        Some(b) => b,
        None => {
            return Err(ApiError::Unauthorized("Invalid signature encoding".to_owned()));
        },
    };
    keys.check_signature(node, ts, sig_bytes.as_slice())
}

/// Authenticates a request at the current clock reading (see `authenticate_at`).
pub fn authenticate(
    keys: &AuthKeys,
    require_auth: bool,
    node_id: Option<&str>,
    signature_b64: Option<&str>,
    timestamp: Option<&str>,
) -> (r: Result<(), ApiError>)
    requires
        keys.wf(),
    ensures
        !require_auth ==> r is Ok,
        require_auth && header_text(node_id) is None ==> error_of(r) == Some(ErrorView::Unauthorized("Missing X-Node-Id header"@)),
        exists|now_ms: u64|
            require_auth ==> error_of(r) == #[trigger] auth_refusal(
                keys@,
                header_text(node_id),
                header_text(signature_b64),
                header_text(timestamp),
                now_ms,
            ),
{
    let now = crate::clock::now_millis();
    authenticate_at(keys, require_auth, node_id, signature_b64, timestamp, now)
}

} // verus!
