//! Chat rooms, users and the chat server's state.

use vstd::prelude::*;

use crate::clock::now_millis;
use crate::coordinates::{DiskPoint, NodeId, RoutingCoordinate};
use crate::routing::{add_id, links, node_index, unique_nodes, with_edge, DeliveryResult, GPRouter, RoutingNode};

verus! {

/// Maximum message size in bytes (64 KB)
pub const MAX_MESSAGE_SIZE: usize = 65536;

/// The texts of a sequence of strings.
pub open spec fn texts(v: Seq<String>) -> Seq<Seq<char>> {
    v.map_values(|s: String| s@)
}

/// `s` without any occurrence of `x`, the rest in order.
pub open spec fn without(s: Seq<Seq<char>>, x: Seq<char>) -> Seq<Seq<char>>
    decreases s.len(),
{
    if s.len() == 0 {
        s
    } else if s.last() == x {
        without(s.drop_last(), x)
    } else {
        without(s.drop_last(), x).push(s.last())
    }
}

/// `s` with `x` appended unless it holds it already.
pub open spec fn with_added(s: Seq<Seq<char>>, x: Seq<char>) -> Seq<Seq<char>> {
    if s.contains(x) {
        s
    } else {
        s.push(x)
    }
}

/// A fresh random message identifier.
///
/// Calls `uuid::Uuid::new_v4` and formats it with `to_string`. The contract claims only
/// the shape that the crate's `Display` gives: 36 characters with hyphens at positions
/// 8, 13, 18 and 23; the digits are random.
#[verifier::external_body]
pub(crate) fn new_message_id() -> (r: String)
    ensures
        r@.len() == 36,
        r@[8] == '-',
        r@[13] == '-',
        r@[18] == '-',
        r@[23] == '-',
{
    uuid::Uuid::new_v4().to_string()
}

/// Whether `v` holds a string with the text of `s`.
fn holds(v: &Vec<String>, s: &str) -> (r: bool)
    ensures
        r == texts(v@).contains(s@),
{
    let target = s.to_owned();
    let mut i: usize = 0;
    while i < v.len()
        invariant
            i <= v.len(),
            target@ == s@,
            forall|j: int| 0 <= j < i ==> v@[j]@ != s@,
        decreases v.len() - i,
    {
        if v[i] == target {
            assert(texts(v@)[i as int] == s@);
            return true;
        }
        i = i + 1;
    }
    proof {
        if texts(v@).contains(s@) {
            let j = choose|j: int| 0 <= j < texts(v@).len() && texts(v@)[j] == s@;
            assert(v@[j]@ == s@);
        }
    }
    false
}

/// Appends the text of `s` unless `v` holds it already.
fn add_unique(v: &mut Vec<String>, s: &str)
    ensures
        texts(final(v)@) == with_added(texts(old(v)@), s@),
{
    if !holds(v, s) {
        let ghost before = texts(v@);
        let t = s.to_owned();
        v.push(t);
        assert(texts(v@) =~= before.push(s@));
    }
}

/// Removes every string with the text of `s`, keeping the rest in order.
fn remove_all(v: &mut Vec<String>, s: &str)
    ensures
        texts(final(v)@) == without(texts(old(v)@), s@),
{
    let target = s.to_owned();
    let mut kept: Vec<String> = Vec::new();
    let mut i: usize = 0;
    let ghost all = texts(v@);
    assert(all.take(0) =~= Seq::<Seq<char>>::empty());
    while i < v.len()
        invariant
            i <= v.len(),
            target@ == s@,
            all == texts(v@),
            texts(kept@) == without(all.take(i as int), s@),
        decreases v.len() - i,
    {
        assert(all.take(i + 1).drop_last() =~= all.take(i as int));
        assert(all.take(i + 1).last() == v@[i as int]@);
        if v[i] != target {
            let ghost before = texts(kept@);
            let c = v[i].clone();
            kept.push(c);
            assert(texts(kept@) =~= before.push(c@));
        }
        i = i + 1;
    }
    assert(all.take(i as int) =~= all);
    *v = kept;
}


/// Chat message types
#[derive(Debug)]
pub enum ChatMessageType {
    /// Text message from user
    Text { content: String },
    /// User joined notification
    UserJoined { user_id: String },
    /// User left notification
    UserLeft { user_id: String },
    /// Room created notification
    RoomCreated { room_id: String },
    /// Routing info (for visualization)
    RoutingInfo { path: Vec<String>, mode: String, hops: u32 },
    /// Error message
    Error { message: String },
    /// System message
    System { message: String },
}

/// Chat message structure
#[derive(Debug)]
pub struct ChatMessage {
    /// Unique message ID
    pub id: String,
    /// Sender user ID
    pub sender: String,
    /// Recipient user ID (or room ID for room messages)
    pub recipient: String,
    /// Message type and content
    pub message_type: ChatMessageType,
    /// Timestamp (milliseconds since epoch)
    pub timestamp: u64,
    /// Room ID (if message is in a room)
    pub room_id: Option<String>,
}

impl ChatMessage {
    /// Create a new text message
    pub fn new_text(sender: &str, recipient: &str, content: &str) -> (r: Self)
        ensures
            r.id@.len() == 36,
            r.sender@ == sender@,
            r.recipient@ == recipient@,
            r.message_type matches ChatMessageType::Text { content: c } && c@ == content@,
            r.room_id is None,
    {
        ChatMessage {
            id: new_message_id(),
            sender: sender.to_owned(),
            recipient: recipient.to_owned(),
            message_type: ChatMessageType::Text { content: content.to_owned() },
            timestamp: now_millis(),
            room_id: None,
        }
    }

    /// Create a room message
    pub fn new_room_text(sender: &str, room_id: &str, content: &str) -> (r: Self)
        ensures
            r.id@.len() == 36,
            r.sender@ == sender@,
            r.recipient@ == room_id@,
            r.message_type matches ChatMessageType::Text { content: c } && c@ == content@,
            r.room_id matches Some(room) && room@ == room_id@,
    {
        ChatMessage {
            id: new_message_id(),
            sender: sender.to_owned(),
            recipient: room_id.to_owned(),
            message_type: ChatMessageType::Text { content: content.to_owned() },
            timestamp: now_millis(),
            room_id: Some(room_id.to_owned()),
        }
    }

    /// Create a system message
    pub fn new_system(recipient: &str, message: &str) -> (r: Self)
        ensures
            r.id@.len() == 36,
            r.sender@ == "system"@,
            r.recipient@ == recipient@,
            r.message_type matches ChatMessageType::System { message: m } && m@ == message@,
            r.room_id is None,
    {
        ChatMessage {
            id: new_message_id(),
            sender: "system".to_owned(),
            recipient: recipient.to_owned(),
            message_type: ChatMessageType::System { message: message.to_owned() },
            timestamp: now_millis(),
            room_id: None,
        }
    }

    /// Create an error message
    pub fn new_error(recipient: &str, error: &str) -> (r: Self)
        ensures
            r.id@.len() == 36,
            r.sender@ == "system"@,
            r.recipient@ == recipient@,
            r.message_type matches ChatMessageType::Error { message: m } && m@ == error@,
            r.room_id is None,
    {
        ChatMessage {
            id: new_message_id(),
            sender: "system".to_owned(),
            recipient: recipient.to_owned(),
            message_type: ChatMessageType::Error { message: error.to_owned() },
            timestamp: now_millis(),
            room_id: None,
        }
    }

    /// Create a routing info message
    pub fn new_routing_info(recipient: &str, path: Vec<String>, mode: &str, hops: u32) -> (r: Self)
        ensures
            r.id@.len() == 36,
            r.sender@ == "system"@,
            r.recipient@ == recipient@,
            r.message_type matches ChatMessageType::RoutingInfo { path: p, mode: md, hops: h } && p == path
                && md@ == mode@ && h == hops,
            r.room_id is None,
    {
        ChatMessage {
            id: new_message_id(),
            sender: "system".to_owned(),
            recipient: recipient.to_owned(),
            message_type: ChatMessageType::RoutingInfo { path, mode: mode.to_owned(), hops },
            timestamp: now_millis(),
            room_id: None,
        }
    }
}

/// A message kind as the contracts see it.
pub enum MessageKindView {
    Text { content: Seq<char> },
    UserJoined { user_id: Seq<char> },
    UserLeft { user_id: Seq<char> },
    RoomCreated { room_id: Seq<char> },
    RoutingInfo { path: Seq<Seq<char>>, mode: Seq<char>, hops: u32 },
    Error { message: Seq<char> },
    System { message: Seq<char> },
}

impl View for ChatMessageType {
    type V = MessageKindView;

    open spec fn view(&self) -> MessageKindView {
        match self {
            ChatMessageType::Text { content } => MessageKindView::Text { content: content@ },
            ChatMessageType::UserJoined { user_id } => MessageKindView::UserJoined { user_id: user_id@ },
            ChatMessageType::UserLeft { user_id } => MessageKindView::UserLeft { user_id: user_id@ },
            ChatMessageType::RoomCreated { room_id } => MessageKindView::RoomCreated { room_id: room_id@ },
            ChatMessageType::RoutingInfo { path, mode, hops } => MessageKindView::RoutingInfo {
                path: texts(path@),
                mode: mode@,
                hops: *hops,
            },
            ChatMessageType::Error { message } => MessageKindView::Error { message: message@ },
            ChatMessageType::System { message } => MessageKindView::System { message: message@ },
        }
    }
}

/// A message as the contracts see it.
pub struct MessageView {
    pub id: Seq<char>,
    pub sender: Seq<char>,
    pub recipient: Seq<char>,
    pub kind: MessageKindView,
    pub timestamp: u64,
    pub room_id: Option<Seq<char>>,
}

impl View for ChatMessage {
    type V = MessageView;

    open spec fn view(&self) -> MessageView {
        MessageView {
            id: self.id@,
            sender: self.sender@,
            recipient: self.recipient@,
            kind: self.message_type@,
            timestamp: self.timestamp,
            room_id: match self.room_id {
                Some(room) => Some(room@),
                None => None,
            },
        }
    }
}

impl Clone for ChatMessageType {
    fn clone(&self) -> (r: Self)
        ensures
            r@ == self@,
    {
        match self {
            ChatMessageType::Text { content } => ChatMessageType::Text { content: content.clone() },
            ChatMessageType::UserJoined { user_id } => ChatMessageType::UserJoined { user_id: user_id.clone() },
            ChatMessageType::UserLeft { user_id } => ChatMessageType::UserLeft { user_id: user_id.clone() },
            ChatMessageType::RoomCreated { room_id } => ChatMessageType::RoomCreated { room_id: room_id.clone() },
            ChatMessageType::RoutingInfo { path, mode, hops } => ChatMessageType::RoutingInfo {
                path: copy_strings(path),
                mode: mode.clone(),
                hops: *hops,
            },
            ChatMessageType::Error { message } => ChatMessageType::Error { message: message.clone() },
            ChatMessageType::System { message } => ChatMessageType::System { message: message.clone() },
        }
    }
}

impl Clone for ChatMessage {
    fn clone(&self) -> (r: Self)
        ensures
            r@ == self@,
    {
        ChatMessage {
            id: self.id.clone(),
            sender: self.sender.clone(),
            recipient: self.recipient.clone(),
            message_type: self.message_type.clone(),
            timestamp: self.timestamp,
            room_id: match &self.room_id {
                Some(room) => Some(room.clone()),
                None => None,
            },
        }
    }
}

/// Chat room structure
#[derive(Debug)]
pub struct ChatRoom {
    /// Room ID
    pub id: String,
    /// Room name
    pub name: String,
    /// Room members (user IDs)
    pub members: Vec<String>,
    /// Room anchor coordinate (for routing)
    pub anchor_coord: DiskPoint,
    /// Created timestamp
    pub created_at: u64,
}

impl ChatRoom {
    /// Create a new chat room, with no members, anchored at `anchor_coord` (the anchor
    /// that the coordinate module derives from the room's identifier).
    pub fn new(id: &str, name: &str, anchor_coord: DiskPoint) -> (r: Self)
        ensures
            r.id@ == id@,
            r.name@ == name@,
            r.members@.len() == 0,
            r.anchor_coord == anchor_coord,
    {
        ChatRoom {
            id: id.to_owned(),
            name: name.to_owned(),
            members: Vec::new(),
            anchor_coord,
            created_at: now_millis(),
        }
    }

    /// Add a member to the room
    pub fn add_member(&mut self, user_id: &str)
        ensures
            texts(final(self).members@) == with_added(texts(old(self).members@), user_id@),
            final(self).id == old(self).id,
            final(self).name == old(self).name,
            final(self).anchor_coord == old(self).anchor_coord,
            final(self).created_at == old(self).created_at,
    {
        add_unique(&mut self.members, user_id);
    }

    /// Remove a member from the room
    pub fn remove_member(&mut self, user_id: &str)
        ensures
            texts(final(self).members@) == without(texts(old(self).members@), user_id@),
            final(self).id == old(self).id,
            final(self).name == old(self).name,
            final(self).anchor_coord == old(self).anchor_coord,
            final(self).created_at == old(self).created_at,
    {
        remove_all(&mut self.members, user_id);
    }

    /// Check if user is a member
    pub fn is_member(&self, user_id: &str) -> (r: bool)
        ensures
            r == texts(self.members@).contains(user_id@),
    {
        holds(&self.members, user_id)
    }
}

/// Connected user information
#[derive(Debug)]
pub struct ConnectedUser {
    /// User ID
    pub id: String,
    /// User's routing coordinate
    pub coord: DiskPoint,
    /// Rooms the user has joined
    pub rooms: Vec<String>,
    /// Connection timestamp
    pub connected_at: u64,
}

impl ConnectedUser {
    /// Create a new connected user, in no room, at coordinate `coord` (the anchor that
    /// the coordinate module derives from the user's identifier).
    pub fn new(id: &str, coord: DiskPoint) -> (r: Self)
        ensures
            r.id@ == id@,
            r.coord == coord,
            r.rooms@.len() == 0,
    {
        ConnectedUser { id: id.to_owned(), coord, rooms: Vec::new(), connected_at: now_millis() }
    }

    /// Join a room
    pub fn join_room(&mut self, room_id: &str)
        ensures
            texts(final(self).rooms@) == with_added(texts(old(self).rooms@), room_id@),
            final(self).id == old(self).id,
            final(self).coord == old(self).coord,
            final(self).connected_at == old(self).connected_at,
    {
        add_unique(&mut self.rooms, room_id);
    }

    /// Leave a room
    pub fn leave_room(&mut self, room_id: &str)
        ensures
            texts(final(self).rooms@) == without(texts(old(self).rooms@), room_id@),
            final(self).id == old(self).id,
            final(self).coord == old(self).coord,
            final(self).connected_at == old(self).connected_at,
    {
        remove_all(&mut self.rooms, room_id);
    }
}

/// WebSocket message from client
#[derive(Debug)]
pub enum ClientMessage {
    /// Send a direct message to another user
    SendMessage { recipient: String, content: String },
    /// Send a message to a room
    SendRoomMessage { room_id: String, content: String },
    /// Join a room
    JoinRoom { room_id: String },
    /// Leave a room
    LeaveRoom { room_id: String },
    /// Create a new room
    CreateRoom { room_id: String, name: String },
    /// Get list of rooms
    ListRooms,
    /// Get list of users
    ListUsers,
    /// Ping (keepalive)
    Ping,
}

/// Room info for listing
#[derive(Debug)]
pub struct RoomInfo {
    pub id: String,
    pub name: String,
    pub member_count: usize,
}

/// `infos` lists `rooms` in order: identifier, name and member count of each.
pub open spec fn room_listing(infos: Seq<RoomInfo>, rooms: Seq<RoomView>) -> bool {
    &&& infos.len() == rooms.len()
    &&& forall|i: int|
        0 <= i < infos.len() ==> (#[trigger] infos[i]).id@ == rooms[i].id && infos[i].name@ == rooms[i].name
            && infos[i].member_count == rooms[i].members.len()
}

/// Builds `a + b + c`.
fn concat3(a: &str, b: &str, c: &str) -> (r: String)
    ensures
        r@ == a@ + b@ + c@,
{
    let mut out = a.to_owned();
    out.append(b);
    out.append(c);
    out
}

/// Copies a vector of strings.
fn copy_strings(v: &Vec<String>) -> (r: Vec<String>)
    ensures
        r@ == v@,
{
    let mut out: Vec<String> = Vec::new();
    let mut i: usize = 0;
    while i < v.len()
        invariant
            i <= v.len(),
            out@ == v@.take(i as int),
        decreases v.len() - i,
    {
        out.push(v[i].clone());
        i = i + 1;
        assert(out@ =~= v@.take(i as int));
    }
    assert(v@.take(i as int) =~= v@);
    out
}

impl Clone for ChatRoom {
    fn clone(&self) -> (r: Self)
        ensures
            r.id == self.id,
            r.name == self.name,
            r.members@ == self.members@,
            r.anchor_coord == self.anchor_coord,
            r.created_at == self.created_at,
    {
        ChatRoom {
            id: self.id.clone(),
            name: self.name.clone(),
            members: copy_strings(&self.members),
            anchor_coord: self.anchor_coord,
            created_at: self.created_at,
        }
    }
}

impl Clone for ConnectedUser {
    fn clone(&self) -> (r: Self)
        ensures
            r.id == self.id,
            r.coord == self.coord,
            r.rooms@ == self.rooms@,
            r.connected_at == self.connected_at,
    {
        ConnectedUser {
            id: self.id.clone(),
            coord: self.coord,
            rooms: copy_strings(&self.rooms),
            connected_at: self.connected_at,
        }
    }
}

/// A user as the contracts see it.
pub struct UserView {
    pub id: Seq<char>,
    pub coord: DiskPoint,
    pub rooms: Seq<Seq<char>>,
    pub connected_at: u64,
}

/// A room as the contracts see it.
pub struct RoomView {
    pub id: Seq<char>,
    pub name: Seq<char>,
    pub members: Seq<Seq<char>>,
    pub anchor_coord: DiskPoint,
    pub created_at: u64,
}

impl View for ConnectedUser {
    type V = UserView;

    open spec fn view(&self) -> UserView {
        UserView { id: self.id@, coord: self.coord, rooms: texts(self.rooms@), connected_at: self.connected_at }
    }
}

impl View for ChatRoom {
    type V = RoomView;

    open spec fn view(&self) -> RoomView {
        RoomView {
            id: self.id@,
            name: self.name@,
            members: texts(self.members@),
            anchor_coord: self.anchor_coord,
            created_at: self.created_at,
        }
    }
}

/// Where the user with identifier `id` is kept.
pub open spec fn find_user(users: Seq<UserView>, id: Seq<char>) -> Option<int>
    decreases users.len(),
{
    if users.len() == 0 {
        None
    } else if users.last().id == id {
        Some(users.len() - 1)
    } else {
        find_user(users.drop_last(), id)
    }
}

/// Where the room with identifier `id` is kept.
pub open spec fn find_room(rooms: Seq<RoomView>, id: Seq<char>) -> Option<int>
    decreases rooms.len(),
{
    if rooms.len() == 0 {
        None
    } else if rooms.last().id == id {
        Some(rooms.len() - 1)
    } else {
        find_room(rooms.drop_last(), id)
    }
}

/// A freshly registered routing node for identifier `id` at `point`.
pub open spec fn fresh_node(n: RoutingNode, id: Seq<char>, point: DiskPoint) -> bool {
    &&& n.id@ == id
    &&& n.coord == RoutingCoordinate { point, updated_at: 0 }
    &&& n.neighbors@.len() == 0
    &&& n.tree_parent is None
    &&& n.tree_children@.len() == 0
}

/// The router after adding node `n`: it replaces a node with the same identifier.
pub open spec fn router_with(router: Seq<RoutingNode>, n: RoutingNode) -> Seq<RoutingNode> {
    match node_index(router, n.id@) {
        Some(i) => router.update(i, n),
        None => router.push(n),
    }
}

/// The chat server's state: connected users, rooms, and the routing graph over both.
pub struct ChatServerState {
    /// Connected users, one per identifier
    users: Vec<ConnectedUser>,
    /// Chat rooms, one per identifier
    rooms: Vec<ChatRoom>,
    /// GP Router for message routing
    router: GPRouter,
}

/// The chat server's state as the contracts see it.
pub struct ChatStateView {
    pub users: Seq<UserView>,
    pub rooms: Seq<RoomView>,
    pub router: Seq<RoutingNode>,
}

/// The views of users.
pub open spec fn user_views(v: Seq<ConnectedUser>) -> Seq<UserView> {
    v.map_values(|u: ConnectedUser| u@)
}

/// The views of rooms.
pub open spec fn room_views(v: Seq<ChatRoom>) -> Seq<RoomView> {
    v.map_values(|r: ChatRoom| r@)
}

/// Identifiers are unique among users and among rooms.
pub open spec fn chat_wf(v: ChatStateView) -> bool {
    &&& forall|i: int, j: int|
        0 <= i < v.users.len() && 0 <= j < v.users.len() && i != j ==> (#[trigger] v.users[i]).id
            != (#[trigger] v.users[j]).id
    &&& forall|i: int, j: int|
        0 <= i < v.rooms.len() && 0 <= j < v.rooms.len() && i != j ==> (#[trigger] v.rooms[i]).id
            != (#[trigger] v.rooms[j]).id
    &&& unique_nodes(v.router)
}

/// Every user and every room is a node of the router.
pub open spec fn nodes_cover(v: ChatStateView) -> bool {
    &&& forall|i: int| 0 <= i < v.users.len() ==> node_index(v.router, (#[trigger] v.users[i]).id) is Some
    &&& forall|j: int| 0 <= j < v.rooms.len() ==> node_index(v.router, (#[trigger] v.rooms[j]).id) is Some
}

impl View for ChatServerState {
    type V = ChatStateView;

    closed spec fn view(&self) -> ChatStateView {
        ChatStateView { users: user_views(self.users@), rooms: room_views(self.rooms@), router: self.router@ }
    }
}

impl ChatServerState {
    /// The invariant of the state.
    pub open spec fn wf(&self) -> bool {
        chat_wf(self@) && nodes_cover(self@)
    }

    /// Create a new chat server state
    pub fn new() -> (r: Self)
        ensures
            r.wf(),
            r@.users.len() == 0,
            r@.rooms.len() == 0,
            r@.router.len() == 0,
            memberships_agree(r@.users, r@.rooms),
    {
        ChatServerState { users: Vec::new(), rooms: Vec::new(), router: GPRouter::new() }
    }

    fn user_slot(&self, id: &str) -> (r: Option<usize>)
        ensures
            r matches Some(i) ==> find_user(self@.users, id@) == Some(i as int) && i < self@.users.len()
                && self@.users[i as int].id == id@,
            r is None ==> find_user(self@.users, id@) is None,
    {
        let target = id.to_owned();
        let mut i = self.users.len();
        assert(self@.users.take(i as int) =~= self@.users);
        while i > 0
            invariant
                i <= self.users.len(),
                target@ == id@,
                find_user(self@.users, id@) == find_user(self@.users.take(i as int), id@),
            decreases i,
        {
            if self.users[i - 1].id == target {
                return Some(i - 1);
            }
            assert(self@.users.take(i as int).drop_last() =~= self@.users.take(i - 1));
            i = i - 1;
        }
        assert(self@.users.take(0) =~= Seq::<UserView>::empty());
        None
    }

    fn room_slot(&self, id: &str) -> (r: Option<usize>)
        ensures
            r matches Some(i) ==> find_room(self@.rooms, id@) == Some(i as int) && i < self@.rooms.len()
                && self@.rooms[i as int].id == id@,
            r is None ==> find_room(self@.rooms, id@) is None,
    {
        let target = id.to_owned();
        let mut i = self.rooms.len();
        assert(self@.rooms.take(i as int) =~= self@.rooms);
        while i > 0
            invariant
                i <= self.rooms.len(),
                target@ == id@,
                find_room(self@.rooms, id@) == find_room(self@.rooms.take(i as int), id@),
            decreases i,
        {
            if self.rooms[i - 1].id == target {
                return Some(i - 1);
            }
            assert(self@.rooms.take(i as int).drop_last() =~= self@.rooms.take(i - 1));
            i = i - 1;
        }
        assert(self@.rooms.take(0) =~= Seq::<RoomView>::empty());
        None
    }
}

/// The user lookup fails only on identifiers that no user has.
pub proof fn lemma_find_user_absent(users: Seq<UserView>, id: Seq<char>)
    ensures
        find_user(users, id) is None ==> forall|i: int| 0 <= i < users.len() ==> (#[trigger] users[i]).id != id,
    decreases users.len(),
{
    if users.len() > 0 && users.last().id != id {
        lemma_find_user_absent(users.drop_last(), id);
        assert forall|i: int| 0 <= i < users.len() - 1 implies users[i] == users.drop_last()[i] by {}
    }
}

/// The room lookup fails only on identifiers that no room has.
pub proof fn lemma_find_room_absent(rooms: Seq<RoomView>, id: Seq<char>)
    ensures
        find_room(rooms, id) is None ==> forall|i: int| 0 <= i < rooms.len() ==> (#[trigger] rooms[i]).id != id,
    decreases rooms.len(),
{
    if rooms.len() > 0 && rooms.last().id != id {
        lemma_find_room_absent(rooms.drop_last(), id);
        assert forall|i: int| 0 <= i < rooms.len() - 1 implies rooms[i] == rooms.drop_last()[i] by {}
    }
}

/// What the user lookup finds is in range and carries the identifier.
proof fn lemma_find_user_found(users: Seq<UserView>, id: Seq<char>)
    ensures
        find_user(users, id) matches Some(i) ==> 0 <= i < users.len() && users[i].id == id,
    decreases users.len(),
{
    if users.len() > 0 && users.last().id != id {
        lemma_find_user_found(users.drop_last(), id);
    }
}

/// What the room lookup finds is in range and carries the identifier.
proof fn lemma_find_room_found(rooms: Seq<RoomView>, id: Seq<char>)
    ensures
        find_room(rooms, id) matches Some(i) ==> 0 <= i < rooms.len() && rooms[i].id == id,
    decreases rooms.len(),
{
    if rooms.len() > 0 && rooms.last().id != id {
        lemma_find_room_found(rooms.drop_last(), id);
    }
}

/// A prefix one longer holds `x` exactly when the shorter one does or `x` is the new entry.
pub proof fn lemma_take_push_contains(s: Seq<Seq<char>>, t: int, x: Seq<char>)
    requires
        0 <= t < s.len(),
    ensures
        s.take(t + 1).contains(x) <==> (s.take(t).contains(x) || s[t] == x),
{
    let a = s.take(t + 1);
    let b = s.take(t);
    if a.contains(x) && s[t] != x {
        let w = choose|w: int| 0 <= w < a.len() && #[trigger] a[w] == x;
        assert(b[w] == x);
    }
    if b.contains(x) {
        let w = choose|w: int| 0 <= w < b.len() && #[trigger] b[w] == x;
        assert(a[w] == x);
    }
    if s[t] == x {
        assert(a[t] == x);
    }
}

/// Removing an identifier twice is removing it once.
pub proof fn lemma_without_idempotent(s: Seq<Seq<char>>, x: Seq<char>)
    ensures
        without(without(s, x), x) == without(s, x),
    decreases s.len(),
{
    if s.len() > 0 {
        lemma_without_idempotent(s.drop_last(), x);
        if s.last() != x {
            let w = without(s.drop_last(), x);
            assert(w.push(s.last()).drop_last() =~= w);
        }
    }
}

impl Default for ChatServerState {
    fn default() -> (r: Self)
        ensures
            r.wf(),
            r@.users.len() == 0,
            r@.rooms.len() == 0,
            r@.router.len() == 0,
    {
        ChatServerState::new()
    }
}

/// Why connecting user `user` is refused, if it is: a user with that identifier is
/// connected already.
pub open spec fn registration_refusal(s: ChatStateView, user: Seq<char>) -> Option<Seq<char>> {
    if find_user(s.users, user) is Some {
        Some("User "@ + user + " already connected"@)
    } else {
        None
    }
}

/// `after` is `before` with the new user `user` at `coord`: it comes last among the
/// users, in no room, and the router holds a fresh node for it.
pub open spec fn registered(before: ChatStateView, after: ChatStateView, user: Seq<char>, coord: DiskPoint) -> bool {
    &&& after.users.len() == before.users.len() + 1
    &&& after.users.drop_last() == before.users
    &&& after.users.last() == UserView { id: user, coord, rooms: Seq::empty(), connected_at: after.users.last().connected_at }
    &&& after.rooms == before.rooms
    &&& exists|n: RoutingNode| fresh_node(n, user, coord) && after.router == router_with(before.router, n)
}

impl ChatServerState {
    /// Register a new user at routing coordinate `coord`; refused when a user with that
    /// identifier is connected already.
    pub fn register_user(&mut self, user_id: &str, coord: DiskPoint) -> (r: Result<ConnectedUser, String>)
        requires
            old(self).wf(),
        ensures
            final(self).wf(),
            memberships_agree(old(self)@.users, old(self)@.rooms) ==> memberships_agree(final(self)@.users, final(self)@.rooms),
            match registration_refusal(old(self)@, user_id@) {
                Some(e) => r matches Err(t) && t@ == e && final(self)@ == old(self)@,
                None => r matches Ok(u) && registered(old(self)@, final(self)@, user_id@, coord)
                    && u@ == final(self)@.users.last(),
            },
    {
        if self.user_slot(user_id).is_some() {
            return Err(concat3("User ", user_id, " already connected"));
        }
        let user = ConnectedUser::new(user_id, coord);
        assert(user@.rooms =~= Seq::<Seq<char>>::empty());
        let copy = user.clone();
        proof {
            lemma_find_user_absent(self@.users, user_id@);
        }
        let ghost before = self.users@;
        self.users.push(user);
        assert(user_views(self.users@) =~= user_views(before).push(copy@));
        let ghost mid = self@;
        assert(forall|i: int, j: int|
            0 <= i < mid.users.len() && 0 <= j < mid.users.len() && i != j ==> (#[trigger] mid.users[i]).id
                != (#[trigger] mid.users[j]).id) by {
            assert forall|a: int, b: int| 0 <= a < mid.users.len() && 0 <= b < mid.users.len() && a != b implies (#[trigger] mid.users[a]).id
                != (#[trigger] mid.users[b]).id by {
                if a < before.len() {
                    assert(mid.users[a] == user_views(before)[a]);
                }
                if b < before.len() {
                    assert(mid.users[b] == user_views(before)[b]);
                }
            }
        }
        assert(mid.rooms == old(self)@.rooms);
        assert(unique_nodes(mid.router));
        assert(forall|i: int, j: int|
            0 <= i < mid.rooms.len() && 0 <= j < mid.rooms.len() && i != j ==> (#[trigger] mid.rooms[i]).id
                != (#[trigger] mid.rooms[j]).id);
        assert(chat_wf(mid));
        // Add user to router
        let node = RoutingNode::new(NodeId::new(user_id), RoutingCoordinate::new(coord, 0));
        let ghost n = node;
        self.router.add_node(node);
        assert(fresh_node(n, user_id@, coord));
        assert(self@.users == mid.users);
        assert(self@.rooms == mid.rooms);
        proof {
            if memberships_agree(old(self)@.users, old(self)@.rooms) {
                lemma_register_keeps_agreement(old(self)@.users, old(self)@.rooms, copy@);
            }
            assert(self@.users.drop_last() =~= old(self)@.users);
            assert(self@.users.last() == copy@);
            lemma_register_covers(old(self)@, self@, user_id@, coord);
        }
        Ok(copy)
    }

    /// Unregister a user: it leaves every room it had joined.
    pub fn unregister_user(&mut self, user_id: &str)
        requires
            old(self).wf(),
        ensures
            final(self).wf(),
            memberships_agree(old(self)@.users, old(self)@.rooms) ==> memberships_agree(final(self)@.users, final(self)@.rooms),
            final(self)@.router == old(self)@.router,
            match find_user(old(self)@.users, user_id@) {
                None => final(self)@ == old(self)@,
                Some(i) => {
                    &&& final(self)@.users == old(self)@.users.remove(i)
                    &&& final(self)@.rooms.len() == old(self)@.rooms.len()
                    &&& forall|k: int| 0 <= k < old(self)@.rooms.len() ==> {
                        let before = old(self)@.rooms[k];
                        let after = #[trigger] final(self)@.rooms[k];
                        &&& after.id == before.id
                        &&& after.name == before.name
                        &&& after.anchor_coord == before.anchor_coord
                        &&& after.created_at == before.created_at
                        &&& after.members == if old(self)@.users[i].rooms.contains(before.id) {
                            without(before.members, user_id@)
                        } else {
                            before.members
                        }
                    }
                },
            },
    {
        let slot = self.user_slot(user_id);
        let i = match slot {
            Some(i) => i,
            None => return,
        };
        let ghost old_users = self.users@;
        let user = self.users.remove(i);
        assert(user_views(self.users@) =~= user_views(old_users).remove(i as int));
        assert(chat_wf(self@)) by {
            let us = self@.users;
            let os = user_views(old_users);
            assert forall|a: int, b: int| 0 <= a < us.len() && 0 <= b < us.len() && a != b implies (#[trigger] us[a]).id
                != (#[trigger] us[b]).id by {
                let a0 = if a < i { a } else { a + 1 };
                let b0 = if b < i { b } else { b + 1 };
                assert(us[a] == os[a0]);
                assert(us[b] == os[b0]);
            }
        }
        let ghost r0 = self@.rooms;
        let ghost joined = user@.rooms;
        let mut t: usize = 0;
        while t < user.rooms.len()
            invariant
                t <= user.rooms.len(),
                joined == texts(user.rooms@),
                chat_wf(self@),
                self@.users == user_views(old_users).remove(i as int),
                self@.router == old(self)@.router,
                self@.rooms.len() == r0.len(),
                forall|k: int| 0 <= k < r0.len() ==> {
                    let before = r0[k];
                    let after = #[trigger] self@.rooms[k];
                    &&& after.id == before.id
                    &&& after.name == before.name
                    &&& after.anchor_coord == before.anchor_coord
                    &&& after.created_at == before.created_at
                    &&& after.members == if joined.take(t as int).contains(before.id) {
                        without(before.members, user_id@)
                    } else {
                        before.members
                    }
                },
            decreases user.rooms.len() - t,
        {
            let ghost cur = self@.rooms;
            proof {
                assert(joined.take(t + 1) =~= joined.take(t as int).push(joined[t as int]));
            }
            match self.room_slot(user.rooms[t].as_str()) {
                Some(idx) => {
                    self.rooms[idx].remove_member(user_id);
                    proof {
                        lemma_without_idempotent(r0[idx as int].members, user_id@);
                        assert(self@.rooms =~= cur.update(idx as int, self@.rooms[idx as int]));
                        assert(r0[idx as int].id == joined[t as int]);
                        assert forall|k: int| 0 <= k < r0.len() implies (#[trigger] self@.rooms[k]).members == if joined.take(t + 1).contains(r0[k].id) {
                            without(r0[k].members, user_id@)
                        } else {
                            r0[k].members
                        } by {
                            if k == idx {
                                assert(joined.take(t + 1)[t as int] == r0[k].id);
                            } else {
                                lemma_take_push_contains(joined, t as int, r0[k].id);
                            }
                        }
                    }
                },
                None => {
                    proof {
                        lemma_find_room_absent(cur, joined[t as int]);
                        assert forall|k: int| 0 <= k < r0.len() implies (#[trigger] self@.rooms[k]).members == if joined.take(t + 1).contains(r0[k].id) {
                            without(r0[k].members, user_id@)
                        } else {
                            r0[k].members
                        } by {
                            lemma_take_push_contains(joined, t as int, r0[k].id);
                        }
                    }
                },
            }
            proof {
                assert(chat_wf(self@)) by {
                    let rs = self@.rooms;
                    assert forall|a: int, b: int| 0 <= a < rs.len() && 0 <= b < rs.len() && a != b implies (#[trigger] rs[a]).id
                        != (#[trigger] rs[b]).id by {
                        assert(rs[a].id == r0[a].id);
                        assert(rs[b].id == r0[b].id);
                    }
                }
            }
            t = t + 1;
        }
        assert(joined.take(t as int) =~= joined);
        proof {
            assert(self@.rooms =~= rooms_without_user(r0, joined, user_id@));
            assert(user_views(old_users)[i as int] == user@);
            if memberships_agree(old(self)@.users, old(self)@.rooms) {
                lemma_unregister_keeps_agreement(old(self)@.users, old(self)@.rooms, i as int);
            }
        }
    }
}

/// Why creating a room with identifier `room` is refused, if it is: the identifier is
/// taken.
pub open spec fn creation_refusal(s: ChatStateView, room: Seq<char>) -> Option<Seq<char>> {
    if find_room(s.rooms, room) is Some {
        Some("Room "@ + room + " already exists"@)
    } else {
        None
    }
}

/// `after` is `before` with a new room `room` named `name` and anchored at `anchor`: it
/// comes last among the rooms, with no members, and the router holds a fresh node for it.
pub open spec fn created(before: ChatStateView, after: ChatStateView, room: Seq<char>, name: Seq<char>, anchor: DiskPoint) -> bool {
    &&& after.rooms.len() == before.rooms.len() + 1
    &&& after.rooms.drop_last() == before.rooms
    &&& after.rooms.last() == RoomView {
        id: room,
        name,
        members: Seq::empty(),
        anchor_coord: anchor,
        created_at: after.rooms.last().created_at,
    }
    &&& after.users == before.users
    &&& exists|n: RoutingNode| fresh_node(n, room, anchor) && after.router == router_with(before.router, n)
}

/// Why joining or leaving room `room` is refused for user `user`, if it is: the user
/// is unknown, or else the room is.
pub open spec fn membership_refusal(s: ChatStateView, user: Seq<char>, room: Seq<char>) -> Option<Seq<char>> {
    if find_user(s.users, user) is None {
        Some("User "@ + user + " not found"@)
    } else if find_room(s.rooms, room) is None {
        Some("Room "@ + room + " not found"@)
    } else {
        None
    }
}

/// `after` is `before` once the known user `user` has joined the known room `room`:
/// the user lists the room, the room lists the user, and the router links the two.
pub open spec fn joined(before: ChatStateView, after: ChatStateView, user: Seq<char>, room: Seq<char>) -> bool {
    let u = find_user(before.users, user)->Some_0;
    let m = find_room(before.rooms, room)->Some_0;
    &&& with_edge(before.router, after.router, user, room)
    &&& after.users == before.users.update(u, UserView { rooms: with_added(before.users[u].rooms, room), ..before.users[u] })
    &&& after.rooms == before.rooms.update(m, RoomView { members: with_added(before.rooms[m].members, user), ..before.rooms[m] })
}

/// `after` is `before` once the known user `user` has left the known room `room`: the
/// user drops the room and the room drops the user; the router keeps its link.
pub open spec fn left(before: ChatStateView, after: ChatStateView, user: Seq<char>, room: Seq<char>) -> bool {
    let u = find_user(before.users, user)->Some_0;
    let m = find_room(before.rooms, room)->Some_0;
    &&& after.router == before.router
    &&& after.users == before.users.update(u, UserView { rooms: without(before.users[u].rooms, room), ..before.users[u] })
    &&& after.rooms == before.rooms.update(m, RoomView { members: without(before.rooms[m].members, user), ..before.rooms[m] })
}

impl ChatServerState {
    /// Create a new chat room anchored at `anchor`; refused when the identifier is taken.
    pub fn create_room(&mut self, room_id: &str, name: &str, anchor: DiskPoint) -> (r: Result<ChatRoom, String>)
        requires
            old(self).wf(),
        ensures
            final(self).wf(),
            memberships_agree(old(self)@.users, old(self)@.rooms) ==> memberships_agree(final(self)@.users, final(self)@.rooms),
            match creation_refusal(old(self)@, room_id@) {
                Some(e) => r matches Err(t) && t@ == e && final(self)@ == old(self)@,
                None => r matches Ok(room) && created(old(self)@, final(self)@, room_id@, name@, anchor)
                    && room@ == final(self)@.rooms.last(),
            },
    {
        if self.room_slot(room_id).is_some() {
            return Err(concat3("Room ", room_id, " already exists"));
        }
        let room = ChatRoom::new(room_id, name, anchor);
        assert(room@.members =~= Seq::<Seq<char>>::empty());
        let copy = room.clone();
        proof {
            lemma_find_room_absent(self@.rooms, room_id@);
        }
        let ghost before = self.rooms@;
        self.rooms.push(room);
        assert(room_views(self.rooms@) =~= room_views(before).push(copy@));
        let ghost mid = self@;
        assert(forall|i: int, j: int|
            0 <= i < mid.rooms.len() && 0 <= j < mid.rooms.len() && i != j ==> (#[trigger] mid.rooms[i]).id
                != (#[trigger] mid.rooms[j]).id) by {
            assert forall|a: int, b: int| 0 <= a < mid.rooms.len() && 0 <= b < mid.rooms.len() && a != b implies (#[trigger] mid.rooms[a]).id
                != (#[trigger] mid.rooms[b]).id by {
                if a < before.len() {
                    assert(mid.rooms[a] == room_views(before)[a]);
                }
                if b < before.len() {
                    assert(mid.rooms[b] == room_views(before)[b]);
                }
            }
        }
        assert(mid.users == old(self)@.users);
        assert(unique_nodes(mid.router));
        assert(forall|i: int, j: int|
            0 <= i < mid.users.len() && 0 <= j < mid.users.len() && i != j ==> (#[trigger] mid.users[i]).id
                != (#[trigger] mid.users[j]).id);
        assert(chat_wf(mid));
        // Add room as a node in the router (for routing to room anchor)
        let node = RoutingNode::new(NodeId::new(room_id), RoutingCoordinate::new(anchor, 0));
        let ghost n = node;
        self.router.add_node(node);
        assert(fresh_node(n, room_id@, anchor));
        assert(self@.users == mid.users);
        assert(self@.rooms == mid.rooms);
        proof {
            if memberships_agree(old(self)@.users, old(self)@.rooms) {
                lemma_create_keeps_agreement(old(self)@.users, old(self)@.rooms, copy@);
            }
            assert(self@.rooms.drop_last() =~= old(self)@.rooms);
            assert(self@.rooms.last() == copy@);
            lemma_create_covers(old(self)@, self@, room_id@, name@, anchor);
        }
        Ok(copy)
    }

    /// Join a room: refused when the user, or else the room, is unknown; otherwise the
    /// user lists the room, the room lists the user, and the router links the two.
    pub fn join_room(&mut self, user_id: &str, room_id: &str) -> (r: Result<(), String>)
        requires
            old(self).wf(),
        ensures
            final(self).wf(),
            memberships_agree(old(self)@.users, old(self)@.rooms) ==> memberships_agree(final(self)@.users, final(self)@.rooms),
            r is Ok ==> links(final(self)@.router, user_id@, room_id@) && links(final(self)@.router, room_id@, user_id@),
            match membership_refusal(old(self)@, user_id@, room_id@) {
                Some(e) => r matches Err(t) && t@ == e && final(self)@ == old(self)@,
                None => r is Ok && joined(old(self)@, final(self)@, user_id@, room_id@),
            },
    {
        let u = match self.user_slot(user_id) {
            Some(u) => u,
            None => return Err(concat3("User ", user_id, " not found")),
        };
        let m = match self.room_slot(room_id) {
            Some(m) => m,
            None => return Err(concat3("Room ", room_id, " not found")),
        };
        let ghost s0 = self@;
        self.users[u].join_room(room_id);
        self.rooms[m].add_member(user_id);
        // Add edge between user and room in router
        self.router.add_edge(&NodeId::new(user_id), &NodeId::new(room_id));
        proof {
            assert(self@.users =~= s0.users.update(u as int, UserView { rooms: with_added(s0.users[u as int].rooms, room_id@), ..s0.users[u as int] }));
            assert(self@.rooms =~= s0.rooms.update(m as int, RoomView { members: with_added(s0.rooms[m as int].members, user_id@), ..s0.rooms[m as int] }));
            if memberships_agree(s0.users, s0.rooms) {
                lemma_join_keeps_agreement(s0.users, s0.rooms, u as int, m as int);
            }
            assert forall|k: int| 0 <= k < s0.router.len() implies (#[trigger] self@.router[k]).id@ == s0.router[k].id@ by {}
            assert forall|i: int| 0 <= i < s0.users.len() implies (#[trigger] self@.users[i]).id == s0.users[i].id by {}
            assert forall|j: int| 0 <= j < s0.rooms.len() implies (#[trigger] self@.rooms[j]).id == s0.rooms[j].id by {}
            lemma_same_ids_cover(s0, self@);
            lemma_join_links(s0, self@, user_id@, room_id@);
            assert forall|a: int, b: int| 0 <= a < self@.users.len() && 0 <= b < self@.users.len() && a != b implies (#[trigger] self@.users[a]).id
                != (#[trigger] self@.users[b]).id by {
                assert(self@.users[a].id == s0.users[a].id);
                assert(self@.users[b].id == s0.users[b].id);
            }
            assert forall|a: int, b: int| 0 <= a < self@.rooms.len() && 0 <= b < self@.rooms.len() && a != b implies (#[trigger] self@.rooms[a]).id
                != (#[trigger] self@.rooms[b]).id by {
                assert(self@.rooms[a].id == s0.rooms[a].id);
                assert(self@.rooms[b].id == s0.rooms[b].id);
            }
        }
        Ok(())
    }

    /// Leave a room: refused when the user, or else the room, is unknown; otherwise the
    /// user drops the room and the room drops the user (the router keeps its link).
    pub fn leave_room(&mut self, user_id: &str, room_id: &str) -> (r: Result<(), String>)
        requires
            old(self).wf(),
        ensures
            final(self).wf(),
            memberships_agree(old(self)@.users, old(self)@.rooms) ==> memberships_agree(final(self)@.users, final(self)@.rooms),
            match membership_refusal(old(self)@, user_id@, room_id@) {
                Some(e) => r matches Err(t) && t@ == e && final(self)@ == old(self)@,
                None => r is Ok && left(old(self)@, final(self)@, user_id@, room_id@),
            },
    {
        let u = match self.user_slot(user_id) {
            Some(u) => u,
            None => return Err(concat3("User ", user_id, " not found")),
        };
        let m = match self.room_slot(room_id) {
            Some(m) => m,
            None => return Err(concat3("Room ", room_id, " not found")),
        };
        let ghost s0 = self@;
        self.users[u].leave_room(room_id);
        self.rooms[m].remove_member(user_id);
        proof {
            assert(self@.users =~= s0.users.update(u as int, UserView { rooms: without(s0.users[u as int].rooms, room_id@), ..s0.users[u as int] }));
            assert(self@.rooms =~= s0.rooms.update(m as int, RoomView { members: without(s0.rooms[m as int].members, user_id@), ..s0.rooms[m as int] }));
            if memberships_agree(s0.users, s0.rooms) {
                lemma_leave_keeps_agreement(s0.users, s0.rooms, u as int, m as int);
            }
            assert forall|a: int, b: int| 0 <= a < self@.users.len() && 0 <= b < self@.users.len() && a != b implies (#[trigger] self@.users[a]).id
                != (#[trigger] self@.users[b]).id by {
                assert(self@.users[a].id == s0.users[a].id);
                assert(self@.users[b].id == s0.users[b].id);
            }
            assert forall|a: int, b: int| 0 <= a < self@.rooms.len() && 0 <= b < self@.rooms.len() && a != b implies (#[trigger] self@.rooms[a]).id
                != (#[trigger] self@.rooms[b]).id by {
                assert(self@.rooms[a].id == s0.rooms[a].id);
                assert(self@.rooms[b].id == s0.rooms[b].id);
            }
        }
        Ok(())
    }
}


/// The members of a room that receive a message from `sender`: every member other
/// than the sender that is a connected user, in membership order.
pub open spec fn room_recipients(users: Seq<UserView>, members: Seq<Seq<char>>, sender: Seq<char>) -> Seq<Seq<char>>
    decreases members.len(),
{
    if members.len() == 0 {
        Seq::empty()
    } else {
        let rest = room_recipients(users, members.drop_last(), sender);
        let m = members.last();
        if m != sender && find_user(users, m) is Some {
            rest.push(m)
        } else {
            rest
        }
    }
}

impl ChatServerState {
    /// The recipients of a room message: refused when the message names no room or an
    /// unknown one; otherwise the room's members other than the sender that are
    /// connected, to whom the message is to be delivered.
    pub fn send_room_message(&self, message: &ChatMessage) -> (r: Result<Vec<String>, String>)
        requires
            self.wf(),
        ensures
            match message.room_id {
                None => r is Err && r->Err_0@ == "Room ID not specified"@,
                Some(room_id) => match find_room(self@.rooms, room_id@) {
                    None => r is Err && r->Err_0@ == "Room "@ + room_id@ + " not found"@,
                    Some(k) => r is Ok && texts(r->Ok_0@) == room_recipients(self@.users, self@.rooms[k].members, message.sender@),
                },
            },
    {
        let room_id = match &message.room_id {
            Some(id) => id,
            None => return Err("Room ID not specified".to_owned()),
        };
        let k = match self.room_slot(room_id.as_str()) {
            Some(k) => k,
            None => return Err(concat3("Room ", room_id.as_str(), " not found")),
        };
        let room = &self.rooms[k];
        let ghost members = room@.members;
        let mut out: Vec<String> = Vec::new();
        let mut t: usize = 0;
        assert(members.take(0) =~= Seq::<Seq<char>>::empty());
        while t < room.members.len()
            invariant
                t <= room.members.len(),
                members == texts(room.members@),
                texts(out@) == room_recipients(self@.users, members.take(t as int), message.sender@),
            decreases room.members.len() - t,
        {
            let member = &room.members[t];
            assert(members.take(t + 1).drop_last() =~= members.take(t as int));
            assert(members.take(t + 1).last() == member@);
            if *member != message.sender && self.user_slot(member.as_str()).is_some() {
                let ghost before = texts(out@);
                let copy = member.clone();
                out.push(copy);
                assert(texts(out@) =~= before.push(member@));
            }
            t = t + 1;
        }
        assert(members.take(t as int) =~= members);
        Ok(out)
    }

    /// Get user by ID
    pub fn get_user(&self, user_id: &str) -> (r: Option<ConnectedUser>)
        ensures
            match find_user(self@.users, user_id@) {
                Some(i) => r is Some && r->Some_0@ == self@.users[i],
                None => r is None,
            },
    {
        match self.user_slot(user_id) {
            Some(i) => Some(self.users[i].clone()),
            None => None,
        }
    }

    /// Get room by ID
    pub fn get_room(&self, room_id: &str) -> (r: Option<ChatRoom>)
        ensures
            match find_room(self@.rooms, room_id@) {
                Some(i) => r is Some && r->Some_0@ == self@.rooms[i],
                None => r is None,
            },
    {
        match self.room_slot(room_id) {
            Some(i) => Some(self.rooms[i].clone()),
            None => None,
        }
    }

    /// Get all connected users
    pub fn get_all_users(&self) -> (r: Vec<ConnectedUser>)
        ensures
            user_views(r@) == self@.users,
    {
        let mut out: Vec<ConnectedUser> = Vec::new();
        let mut i: usize = 0;
        while i < self.users.len()
            invariant
                i <= self.users.len(),
                user_views(out@) == self@.users.take(i as int),
            decreases self.users.len() - i,
        {
            let ghost before = user_views(out@);
            let u = self.users[i].clone();
            out.push(u);
            assert(user_views(out@) =~= before.push(u@));
            i = i + 1;
            assert(user_views(out@) =~= self@.users.take(i as int));
        }
        assert(self@.users.take(i as int) =~= self@.users);
        out
    }

    /// Get all rooms
    pub fn get_all_rooms(&self) -> (r: Vec<ChatRoom>)
        ensures
            room_views(r@) == self@.rooms,
    {
        let mut out: Vec<ChatRoom> = Vec::new();
        let mut i: usize = 0;
        while i < self.rooms.len()
            invariant
                i <= self.rooms.len(),
                room_views(out@) == self@.rooms.take(i as int),
            decreases self.rooms.len() - i,
        {
            let ghost before = room_views(out@);
            let c = self.rooms[i].clone();
            out.push(c);
            assert(room_views(out@) =~= before.push(c@));
            i = i + 1;
            assert(room_views(out@) =~= self@.rooms.take(i as int));
        }
        assert(self@.rooms.take(i as int) =~= self@.rooms);
        out
    }

    /// Check if a user can send messages to another user: both must be connected.
    pub fn can_send_message(&self, sender_id: &str, recipient_id: &str) -> (r: bool)
        ensures
            r == (find_user(self@.users, sender_id@) is Some && find_user(self@.users, recipient_id@) is Some),
    {
        self.user_slot(sender_id).is_some() && self.user_slot(recipient_id).is_some()
    }

    /// The routing graph over users and rooms.
    pub fn router(&self) -> (r: &GPRouter)
        ensures
            r@ == self@.router,
    {
        &self.router
    }

    /// The room listing: identifier, name and member count of each room.
    pub fn list_rooms(&self) -> (r: Vec<RoomInfo>)
        ensures
            room_listing(r@, self@.rooms),
    {
        let mut out: Vec<RoomInfo> = Vec::new();
        let mut i: usize = 0;
        while i < self.rooms.len()
            invariant
                i <= self.rooms.len(),
                out@.len() == i,
                forall|a: int|
                    0 <= a < i ==> (#[trigger] out@[a]).id@ == self@.rooms[a].id && out@[a].name@ == self@.rooms[a].name
                        && out@[a].member_count == self@.rooms[a].members.len(),
            decreases self.rooms.len() - i,
        {
            let room = &self.rooms[i];
            out.push(RoomInfo { id: room.id.clone(), name: room.name.clone(), member_count: room.members.len() });
            i = i + 1;
        }
        out
    }
}


/// Membership laws: after joining one is a member, after leaving one is not, and
/// joining then leaving is leaving alone; for someone not a member, joining then
/// leaving restores the list exactly.
pub proof fn lemma_membership_round_trip(s: Seq<Seq<char>>, x: Seq<char>)
    ensures
        with_added(s, x).contains(x),
        !without(s, x).contains(x),
        without(with_added(s, x), x) == without(s, x),
        !s.contains(x) ==> without(with_added(s, x), x) == s,
{
    lemma_without_excludes(s, x);
    if s.contains(x) {
    } else {
        let t = s.push(x);
        assert(t[s.len() as int] == x);
        assert(t.drop_last() =~= s);
        lemma_without_absent(s, x);
    }
}

/// Nothing removed remains.
/// What `without` keeps: the members of `s` other than `x`.
pub proof fn lemma_without_contains(s: Seq<Seq<char>>, x: Seq<char>, y: Seq<char>)
    ensures
        without(s, x).contains(y) <==> s.contains(y) && y != x,
    decreases s.len(),
{
    if s.len() > 0 {
        let rest = s.drop_last();
        lemma_without_contains(rest, x, y);
        let w = without(rest, x);
        if without(s, x).contains(y) {
            let k = choose|k: int| 0 <= k < without(s, x).len() && without(s, x)[k] == y;
            if s.last() != x && k == w.len() {
                assert(s[s.len() - 1] == y);
            } else {
                assert(w[k] == y);
                let j = choose|j: int| 0 <= j < rest.len() && rest[j] == y;
                assert(s[j] == y);
            }
        }
        if s.contains(y) && y != x {
            let j = choose|j: int| 0 <= j < s.len() && s[j] == y;
            if j < s.len() - 1 {
                assert(rest[j] == y);
                let k = choose|k: int| 0 <= k < w.len() && w[k] == y;
                if s.last() != x {
                    assert(without(s, x)[k] == y);
                }
            } else {
                assert(without(s, x)[w.len() as int] == y);
            }
        }
    }
}

proof fn lemma_without_excludes(s: Seq<Seq<char>>, x: Seq<char>)
    ensures
        !without(s, x).contains(x),
    decreases s.len(),
{
    if s.len() > 0 {
        lemma_without_excludes(s.drop_last(), x);
        if s.last() != x {
            let w = without(s.drop_last(), x);
            if w.push(s.last()).contains(x) {
                let k = choose|k: int| 0 <= k < w.push(s.last()).len() && w.push(s.last())[k] == x;
                assert(w[k] == x);
            }
        }
    }
}

/// Removing what is absent changes nothing.
proof fn lemma_without_absent(s: Seq<Seq<char>>, x: Seq<char>)
    requires
        !s.contains(x),
    ensures
        without(s, x) == s,
    decreases s.len(),
{
    if s.len() > 0 {
        assert(s.last() != x) by {
            assert(s[s.len() - 1] == s.last());
        }
        assert(!s.drop_last().contains(x)) by {
            if s.drop_last().contains(x) {
                let k = choose|k: int| 0 <= k < s.drop_last().len() && s.drop_last()[k] == x;
                assert(s[k] == x);
            }
        }
        lemma_without_absent(s.drop_last(), x);
        assert(s.drop_last().push(s.last()) =~= s);
    }
}

/// A user just registered is the one found under its identifier.
pub proof fn lemma_registered_user_found(users: Seq<UserView>, u: UserView)
    ensures
        find_user(users.push(u), u.id) == Some(users.len() as int),
        users.push(u)[users.len() as int] == u,
{
}


/// The decimal digits of `n`, most significant first, as `Display` writes them.
pub open spec fn decimal_text(n: nat) -> Seq<char>
    decreases n,
{
    if n < 10 {
        seq![(48 + n) as char]
    } else {
        decimal_text(n / 10).push((48 + n % 10) as char)
    }
}

fn digit_text(d: u64) -> (r: &'static str)
    requires
        d < 10,
    ensures
        r@ == seq![(48 + d) as char],
{
    if d == 0 {
        proof { reveal_strlit("0"); }
        "0"
    } else if d == 1 {
        proof { reveal_strlit("1"); }
        "1"
    } else if d == 2 {
        proof { reveal_strlit("2"); }
        "2"
    } else if d == 3 {
        proof { reveal_strlit("3"); }
        "3"
    } else if d == 4 {
        proof { reveal_strlit("4"); }
        "4"
    } else if d == 5 {
        proof { reveal_strlit("5"); }
        "5"
    } else if d == 6 {
        proof { reveal_strlit("6"); }
        "6"
    } else if d == 7 {
        proof { reveal_strlit("7"); }
        "7"
    } else if d == 8 {
        proof { reveal_strlit("8"); }
        "8"
    } else {
        proof { reveal_strlit("9"); }
        "9"
    }
}

/// Appends the decimal digits of `n`.
fn push_decimal_text(out: &mut String, n: u64)
    ensures
        final(out)@ == old(out)@ + decimal_text(n as nat),
    decreases n,
{
    if n >= 10 {
        push_decimal_text(out, n / 10);
    }
    out.append(digit_text(n % 10));
    proof {
        assert(out@ =~= old(out)@ + decimal_text(n as nat));
    }
}

/// The routing summary a sender is told: the hops in each mode, as
/// `"G:{gravity}/P:{pressure}/T:{tree}"`.
pub open spec fn mode_summary(gravity: u32, pressure: u32, tree: u32) -> Seq<char> {
    "G:"@ + decimal_text(gravity as nat) + "/P:"@ + decimal_text(pressure as nat) + "/T:"@ + decimal_text(tree as nat)
}

/// Writes the routing summary of a delivery.
pub fn routing_mode_text(gravity: u32, pressure: u32, tree: u32) -> (r: String)
    ensures
        r@ == mode_summary(gravity, pressure, tree),
{
    let mut out = "G:".to_owned();
    push_decimal_text(&mut out, gravity as u64);
    out.append("/P:");
    push_decimal_text(&mut out, pressure as u64);
    out.append("/T:");
    push_decimal_text(&mut out, tree as u64);
    out
}

/// The texts of the nodes on a path.
fn path_texts(path: &Vec<NodeId>) -> (r: Vec<String>)
    ensures
        texts(r@) == crate::baselines::ids_of(path@),
{
    let mut out: Vec<String> = Vec::new();
    let mut i: usize = 0;
    while i < path.len()
        invariant
            i <= path.len(),
            texts(out@) == crate::baselines::ids_of(path@).take(i as int),
        decreases path.len() - i,
    {
        let ghost before = texts(out@);
        out.push(path[i].0.clone());
        assert(texts(out@) =~= before.push(path@[i as int]@));
        i = i + 1;
        assert(texts(out@) =~= crate::baselines::ids_of(path@).take(i as int));
    }
    assert(crate::baselines::ids_of(path@).take(i as int) =~= crate::baselines::ids_of(path@));
    out
}

/// Why a direct message to `recipient`, routed as `routing`, is refused, if it is:
/// routing failed, or else the recipient is not connected.
pub open spec fn direct_refusal(s: ChatStateView, routing: DeliveryResult, recipient: Seq<char>) -> Option<Seq<char>> {
    if !routing.success {
        Some(
            "Message routing failed: "@ + match routing.failure_reason {
                Some(reason) => reason@,
                None => "Unknown error"@,
            },
        )
    } else if find_user(s.users, recipient) is None {
        Some("Recipient "@ + recipient + " not connected"@)
    } else {
        None
    }
}

/// `info` is the routing-info message that tells `to` how a message was routed: the
/// path, the hops in each mode and the hop count.
pub open spec fn routing_info_for(info: ChatMessage, to: Seq<char>, routing: DeliveryResult) -> bool {
    &&& info.id@.len() == 36
    &&& info.sender@ == "system"@
    &&& info.recipient@ == to
    &&& info.room_id is None
    &&& info.message_type matches ChatMessageType::RoutingInfo { path, mode, hops }
        && texts(path@) == crate::baselines::ids_of(routing.path@)
        && mode@ == mode_summary(routing.gravity_hops, routing.pressure_hops, routing.tree_hops)
        && hops == routing.hops
}

impl ChatServerState {
    /// Delivers a direct message that the overlay has routed (`routing`): refused when
    /// routing failed or the recipient is not connected. On success the message goes
    /// to its recipient, and a connected sender is also sent a routing-info message
    /// with the path, the hops in each mode and the hop count, which is returned.
    pub fn send_message(&self, message: &ChatMessage, routing: &DeliveryResult) -> (r: Result<Option<ChatMessage>, String>)
        requires
            self.wf(),
        ensures
            match direct_refusal(self@, *routing, message.recipient@) {
                Some(e) => r matches Err(t) && t@ == e,
                None => r matches Ok(info) && (info is Some <==> find_user(self@.users, message.sender@) is Some),
            },
            r matches Ok(Some(info)) ==> routing_info_for(info, message.sender@, *routing),
    {
        if !routing.success {
            let reason = match &routing.failure_reason {
                Some(text) => text.as_str(),
                None => {
                    proof { reveal_strlit("Unknown error"); }
                    "Unknown error"
                },
            };
            let mut text = "Message routing failed: ".to_owned();
            text.append(reason);
            return Err(text);
        }
        if self.user_slot(message.recipient.as_str()).is_none() {
            return Err(concat3("Recipient ", message.recipient.as_str(), " not connected"));
        }
        if self.user_slot(message.sender.as_str()).is_none() {
            return Ok(None);
        }
        let mode = routing_mode_text(routing.gravity_hops, routing.pressure_hops, routing.tree_hops);
        let info = ChatMessage::new_routing_info(message.sender.as_str(), path_texts(&routing.path), mode.as_str(), routing.hops);
        Ok(Some(info))
    }
}

/// Formatting writes every number: the digits of `n` are decimal digits, and they
/// read back as `n`.
pub proof fn lemma_decimal_text(n: nat)
    ensures
        decimal_text(n).len() > 0,
        forall|i: int| 0 <= i < decimal_text(n).len() ==> '0' <= #[trigger] decimal_text(n)[i] <= '9',
    decreases n,
{
    if n >= 10 {
        lemma_decimal_text(n / 10);
        let s = decimal_text(n);
        assert forall|i: int| 0 <= i < s.len() implies '0' <= #[trigger] s[i] <= '9' by {
            if i < s.len() - 1 {
                assert(s[i] == decimal_text(n / 10)[i]);
            }
        }
    }
}


/// The lookup depends on the identifiers' texts alone.
proof fn lemma_node_index_same_texts(a: Seq<RoutingNode>, b: Seq<RoutingNode>, id: Seq<char>)
    requires
        a.len() == b.len(),
        forall|k: int| 0 <= k < a.len() ==> (#[trigger] a[k]).id@ == b[k].id@,
    ensures
        node_index(a, id) == node_index(b, id),
    decreases a.len(),
{
    if a.len() > 0 {
        assert(a.last().id@ == b.last().id@);
        assert forall|k: int| 0 <= k < a.len() - 1 implies (#[trigger] a.drop_last()[k]).id@ == b.drop_last()[k].id@ by {
            assert(a.drop_last()[k] == a[k]);
            assert(b.drop_last()[k] == b[k]);
        }
        lemma_node_index_same_texts(a.drop_last(), b.drop_last(), id);
    }
}

/// Adding a node keeps every node found and finds the new one.
proof fn lemma_router_with_finds(router: Seq<RoutingNode>, n: RoutingNode, x: Seq<char>)
    ensures
        node_index(router, x) is Some || x == n.id@ ==> node_index(router_with(router, n), x) is Some,
{
    crate::routing::lemma_node_index_found(router, n.id@);
    match node_index(router, n.id@) {
        Some(i) => {
            let r2 = router.update(i, n);
            assert forall|k: int| 0 <= k < router.len() implies (#[trigger] router[k]).id@ == r2[k].id@ by {}
            lemma_node_index_same_texts(router, r2, x);
            lemma_node_index_same_texts(router, r2, n.id@);
        },
        None => {
            let r2 = router.push(n);
            assert(r2.drop_last() =~= router);
        },
    }
}

/// A new user keeps every user and room a node of the router.
pub proof fn lemma_register_covers(before: ChatStateView, after: ChatStateView, user: Seq<char>, coord: DiskPoint)
    requires
        nodes_cover(before),
        registered(before, after, user, coord),
    ensures
        nodes_cover(after),
{
    let n = choose|n: RoutingNode| fresh_node(n, user, coord) && after.router == router_with(before.router, n);
    assert forall|i: int| 0 <= i < after.users.len() implies node_index(after.router, (#[trigger] after.users[i]).id) is Some by {
        if i < before.users.len() {
            assert(after.users[i] == after.users.drop_last()[i]);
        }
        lemma_router_with_finds(before.router, n, after.users[i].id);
    }
    assert forall|j: int| 0 <= j < after.rooms.len() implies node_index(after.router, (#[trigger] after.rooms[j]).id) is Some by {
        lemma_router_with_finds(before.router, n, after.rooms[j].id);
    }
}

/// A new room keeps every user and room a node of the router.
pub proof fn lemma_create_covers(before: ChatStateView, after: ChatStateView, room: Seq<char>, name: Seq<char>, anchor: DiskPoint)
    requires
        nodes_cover(before),
        created(before, after, room, name, anchor),
    ensures
        nodes_cover(after),
{
    let n = choose|n: RoutingNode| fresh_node(n, room, anchor) && after.router == router_with(before.router, n);
    assert forall|j: int| 0 <= j < after.rooms.len() implies node_index(after.router, (#[trigger] after.rooms[j]).id) is Some by {
        if j < before.rooms.len() {
            assert(after.rooms[j] == after.rooms.drop_last()[j]);
        }
        lemma_router_with_finds(before.router, n, after.rooms[j].id);
    }
    assert forall|i: int| 0 <= i < after.users.len() implies node_index(after.router, (#[trigger] after.users[i]).id) is Some by {
        lemma_router_with_finds(before.router, n, after.users[i].id);
    }
}

/// States whose router nodes, users and rooms keep their identifiers keep every user
/// and room a node of the router.
proof fn lemma_same_ids_cover(before: ChatStateView, after: ChatStateView)
    requires
        nodes_cover(before),
        after.router.len() == before.router.len(),
        forall|k: int| 0 <= k < before.router.len() ==> (#[trigger] after.router[k]).id@ == before.router[k].id@,
        after.users.len() == before.users.len(),
        forall|i: int| 0 <= i < before.users.len() ==> (#[trigger] after.users[i]).id == before.users[i].id,
        after.rooms.len() == before.rooms.len(),
        forall|j: int| 0 <= j < before.rooms.len() ==> (#[trigger] after.rooms[j]).id == before.rooms[j].id,
    ensures
        nodes_cover(after),
{
    assert forall|i: int| 0 <= i < after.users.len() implies node_index(after.router, (#[trigger] after.users[i]).id) is Some by {
        assert(node_index(before.router, before.users[i].id) is Some);
        lemma_node_index_same_texts(before.router, after.router, before.users[i].id);
    }
    assert forall|j: int| 0 <= j < after.rooms.len() implies node_index(after.router, (#[trigger] after.rooms[j]).id) is Some by {
        assert(node_index(before.router, before.rooms[j].id) is Some);
        lemma_node_index_same_texts(before.router, after.router, before.rooms[j].id);
    }
}

/// Adding `x` makes it a member and keeps every member.
proof fn lemma_add_id_contains(s: Seq<Seq<char>>, x: Seq<char>, y: Seq<char>)
    ensures
        add_id(s, x).contains(x),
        s.contains(y) ==> add_id(s, x).contains(y),
{
    if !s.contains(x) {
        assert(s.push(x)[s.len() as int] == x);
        if s.contains(y) {
            let w = choose|w: int| 0 <= w < s.len() && s[w] == y;
            assert(s.push(x)[w] == y);
        }
    }
}

/// After a user joins a room, each is a neighbor of the other in the router: a packet
/// can pass between them.
pub proof fn lemma_join_links(before: ChatStateView, after: ChatStateView, user: Seq<char>, room: Seq<char>)
    requires
        nodes_cover(before),
        membership_refusal(before, user, room) is None,
        joined(before, after, user, room),
    ensures
        links(after.router, user, room),
        links(after.router, room, user),
{
    let u = find_user(before.users, user)->Some_0;
    let m = find_room(before.rooms, room)->Some_0;
    lemma_find_user_found(before.users, user);
    lemma_find_room_found(before.rooms, room);
    assert(before.users[u].id == user);
    assert(before.rooms[m].id == room);
    let a = node_index(before.router, user)->Some_0;
    let b = node_index(before.router, room)->Some_0;
    crate::routing::lemma_node_index_found(before.router, user);
    crate::routing::lemma_node_index_found(before.router, room);
    assert forall|k: int| 0 <= k < before.router.len() implies (#[trigger] after.router[k]).id@ == before.router[k].id@ by {}
    lemma_node_index_same_texts(before.router, after.router, user);
    lemma_node_index_same_texts(before.router, after.router, room);
    let was_a = before.router[a].neighbor_ids();
    let was_b = before.router[b].neighbor_ids();
    lemma_add_id_contains(was_a, room, room);
    lemma_add_id_contains(was_b, user, user);
    if a == b {
        lemma_add_id_contains(add_id(was_a, room), user, room);
    } else {
        assert(after.router[a].neighbor_ids() == add_id(was_a, room));
        assert(after.router[b].neighbor_ids() == add_id(was_b, user));
    }
}

/// Room membership and the users' room lists agree: every member of a room is a
/// connected user who lists the room, and every room a user lists exists and has the
/// user as a member.
pub open spec fn memberships_agree(users: Seq<UserView>, rooms: Seq<RoomView>) -> bool {
    &&& forall|j: int, x: Seq<char>|
        0 <= j < rooms.len() && #[trigger] rooms[j].members.contains(x) ==> exists|i: int|
            #![trigger users[i]]
            0 <= i < users.len() && users[i].id == x && users[i].rooms.contains(rooms[j].id)
    &&& forall|i: int, r: Seq<char>|
        0 <= i < users.len() && #[trigger] users[i].rooms.contains(r) ==> exists|j: int|
            #![trigger rooms[j]]
            0 <= j < rooms.len() && rooms[j].id == r && rooms[j].members.contains(users[i].id)
}

/// Connecting a user with no rooms keeps memberships in agreement.
pub proof fn lemma_register_keeps_agreement(users: Seq<UserView>, rooms: Seq<RoomView>, u: UserView)
    requires
        memberships_agree(users, rooms),
        u.rooms.len() == 0,
    ensures
        memberships_agree(users.push(u), rooms),
{
    let us = users.push(u);
    assert forall|j: int, x: Seq<char>| 0 <= j < rooms.len() && #[trigger] rooms[j].members.contains(x) implies exists|i: int|
        #![trigger us[i]]
        0 <= i < us.len() && us[i].id == x && us[i].rooms.contains(rooms[j].id) by {
        let i = choose|i: int| #![trigger users[i]] 0 <= i < users.len() && users[i].id == x && users[i].rooms.contains(rooms[j].id);
        assert(us[i] == users[i]);
    }
    assert forall|i: int, r: Seq<char>| 0 <= i < us.len() && #[trigger] us[i].rooms.contains(r) implies exists|j: int|
        #![trigger rooms[j]]
        0 <= j < rooms.len() && rooms[j].id == r && rooms[j].members.contains(us[i].id) by {
        if i < users.len() {
            assert(us[i] == users[i]);
            assert(users[i].rooms.contains(r));
        } else {
            assert(us[i] == u);
        }
    }
}

/// Creating a room with no members keeps memberships in agreement.
pub proof fn lemma_create_keeps_agreement(users: Seq<UserView>, rooms: Seq<RoomView>, room: RoomView)
    requires
        memberships_agree(users, rooms),
        room.members.len() == 0,
    ensures
        memberships_agree(users, rooms.push(room)),
{
    let rs = rooms.push(room);
    assert forall|j: int, x: Seq<char>| 0 <= j < rs.len() && #[trigger] rs[j].members.contains(x) implies exists|i: int|
        #![trigger users[i]]
        0 <= i < users.len() && users[i].id == x && users[i].rooms.contains(rs[j].id) by {
        if j < rooms.len() {
            assert(rs[j] == rooms[j]);
            assert(rooms[j].members.contains(x));
        } else {
            assert(rs[j] == room);
        }
    }
    assert forall|i: int, r: Seq<char>| 0 <= i < users.len() && #[trigger] users[i].rooms.contains(r) implies exists|j: int|
        #![trigger rs[j]]
        0 <= j < rs.len() && rs[j].id == r && rs[j].members.contains(users[i].id) by {
        let j = choose|j: int| #![trigger rooms[j]] 0 <= j < rooms.len() && rooms[j].id == r && rooms[j].members.contains(users[i].id);
        assert(rs[j] == rooms[j]);
    }
}

/// A user joining a room keeps memberships in agreement.
pub proof fn lemma_join_keeps_agreement(users: Seq<UserView>, rooms: Seq<RoomView>, u: int, m: int)
    requires
        memberships_agree(users, rooms),
        0 <= u < users.len(),
        0 <= m < rooms.len(),
    ensures
        memberships_agree(
            users.update(u, UserView { rooms: with_added(users[u].rooms, rooms[m].id), ..users[u] }),
            rooms.update(m, RoomView { members: with_added(rooms[m].members, users[u].id), ..rooms[m] }),
        ),
{
    broadcast use vstd::seq_lib::lemma_seq_contains_after_push;

    let uid = users[u].id;
    let rid = rooms[m].id;
    let us = users.update(u, UserView { rooms: with_added(users[u].rooms, rid), ..users[u] });
    let rs = rooms.update(m, RoomView { members: with_added(rooms[m].members, uid), ..rooms[m] });
    assert forall|j: int, x: Seq<char>| 0 <= j < rs.len() && #[trigger] rs[j].members.contains(x) implies exists|i: int|
        #![trigger us[i]]
        0 <= i < us.len() && us[i].id == x && us[i].rooms.contains(rs[j].id) by {
        assert(rs[j].id == rooms[j].id);
        if j == m && x == uid {
            assert(us[u].id == x && us[u].rooms.contains(rid));
        } else {
            assert(rooms[j].members.contains(x));
            let i = choose|i: int| #![trigger users[i]] 0 <= i < users.len() && users[i].id == x && users[i].rooms.contains(rooms[j].id);
            assert(us[i].id == x && us[i].rooms.contains(rs[j].id));
        }
    }
    assert forall|i: int, r: Seq<char>| 0 <= i < us.len() && #[trigger] us[i].rooms.contains(r) implies exists|j: int|
        #![trigger rs[j]]
        0 <= j < rs.len() && rs[j].id == r && rs[j].members.contains(us[i].id) by {
        assert(us[i].id == users[i].id);
        if i == u && r == rid {
            assert(rs[m].id == r && rs[m].members.contains(uid));
        } else {
            assert(users[i].rooms.contains(r));
            let j = choose|j: int| #![trigger rooms[j]] 0 <= j < rooms.len() && rooms[j].id == r && rooms[j].members.contains(users[i].id);
            assert(rs[j].id == r && rs[j].members.contains(us[i].id));
        }
    }
}


/// A user leaving a room keeps memberships in agreement, user and room identifiers
/// being unique.
pub proof fn lemma_leave_keeps_agreement(users: Seq<UserView>, rooms: Seq<RoomView>, u: int, m: int)
    requires
        memberships_agree(users, rooms),
        0 <= u < users.len(),
        0 <= m < rooms.len(),
        forall|a: int, b: int| 0 <= a < users.len() && 0 <= b < users.len() && a != b ==> (#[trigger] users[a]).id != (#[trigger] users[b]).id,
        forall|a: int, b: int| 0 <= a < rooms.len() && 0 <= b < rooms.len() && a != b ==> (#[trigger] rooms[a]).id != (#[trigger] rooms[b]).id,
    ensures
        memberships_agree(
            users.update(u, UserView { rooms: without(users[u].rooms, rooms[m].id), ..users[u] }),
            rooms.update(m, RoomView { members: without(rooms[m].members, users[u].id), ..rooms[m] }),
        ),
{
    let uid = users[u].id;
    let rid = rooms[m].id;
    let us = users.update(u, UserView { rooms: without(users[u].rooms, rid), ..users[u] });
    let rs = rooms.update(m, RoomView { members: without(rooms[m].members, uid), ..rooms[m] });
    assert forall|j: int, x: Seq<char>| 0 <= j < rs.len() && #[trigger] rs[j].members.contains(x) implies exists|i: int|
        #![trigger us[i]]
        0 <= i < us.len() && us[i].id == x && us[i].rooms.contains(rs[j].id) by {
        assert(rs[j].id == rooms[j].id);
        if j == m {
            lemma_without_contains(rooms[m].members, uid, x);
        }
        assert(rooms[j].members.contains(x));
        let i = choose|i: int| #![trigger users[i]] 0 <= i < users.len() && users[i].id == x && users[i].rooms.contains(rooms[j].id);
        if i == u {
            assert(j != m);
            lemma_without_contains(users[u].rooms, rid, rooms[j].id);
        }
        assert(us[i].id == x && us[i].rooms.contains(rs[j].id));
    }
    assert forall|i: int, r: Seq<char>| 0 <= i < us.len() && #[trigger] us[i].rooms.contains(r) implies exists|j: int|
        #![trigger rs[j]]
        0 <= j < rs.len() && rs[j].id == r && rs[j].members.contains(us[i].id) by {
        assert(us[i].id == users[i].id);
        if i == u {
            lemma_without_contains(users[u].rooms, rid, r);
        }
        assert(users[i].rooms.contains(r));
        let j = choose|j: int| #![trigger rooms[j]] 0 <= j < rooms.len() && rooms[j].id == r && rooms[j].members.contains(users[i].id);
        if j == m {
            assert(i != u);
            lemma_without_contains(rooms[m].members, uid, users[i].id);
        }
        assert(rs[j].id == r && rs[j].members.contains(us[i].id));
    }
}

/// The rooms after user `user_id`, who had joined the rooms `joined`, disconnects: each
/// joined room drops the user.
pub open spec fn rooms_without_user(rooms: Seq<RoomView>, joined: Seq<Seq<char>>, user_id: Seq<char>) -> Seq<RoomView> {
    Seq::new(
        rooms.len(),
        |k: int|
            if joined.contains(rooms[k].id) {
                RoomView { members: without(rooms[k].members, user_id), ..rooms[k] }
            } else {
                rooms[k]
            },
    )
}

/// A user disconnecting keeps memberships in agreement, user identifiers being
/// unique.
pub proof fn lemma_unregister_keeps_agreement(users: Seq<UserView>, rooms: Seq<RoomView>, u: int)
    requires
        memberships_agree(users, rooms),
        0 <= u < users.len(),
        forall|a: int, b: int| 0 <= a < users.len() && 0 <= b < users.len() && a != b ==> (#[trigger] users[a]).id != (#[trigger] users[b]).id,
    ensures
        memberships_agree(users.remove(u), rooms_without_user(rooms, users[u].rooms, users[u].id)),
{
    let uid = users[u].id;
    let joined = users[u].rooms;
    let us = users.remove(u);
    let rs = rooms_without_user(rooms, joined, uid);
    assert forall|j: int, x: Seq<char>| 0 <= j < rs.len() && #[trigger] rs[j].members.contains(x) implies exists|i: int|
        #![trigger us[i]]
        0 <= i < us.len() && us[i].id == x && us[i].rooms.contains(rs[j].id) by {
        assert(rs[j].id == rooms[j].id);
        if joined.contains(rooms[j].id) {
            lemma_without_contains(rooms[j].members, uid, x);
        }
        assert(rooms[j].members.contains(x));
        let i = choose|i: int| #![trigger users[i]] 0 <= i < users.len() && users[i].id == x && users[i].rooms.contains(rooms[j].id);
        assert(i != u) by {
            if i == u {
                lemma_without_contains(rooms[j].members, uid, x);
            }
        }
        let i2 = if i < u { i } else { i - 1 };
        assert(us[i2] == users[i]);
    }
    assert forall|i: int, r: Seq<char>| 0 <= i < us.len() && #[trigger] us[i].rooms.contains(r) implies exists|j: int|
        #![trigger rs[j]]
        0 <= j < rs.len() && rs[j].id == r && rs[j].members.contains(us[i].id) by {
        let i0 = if i < u { i } else { i + 1 };
        assert(us[i] == users[i0]);
        assert(users[i0].rooms.contains(r));
        let j = choose|j: int| #![trigger rooms[j]] 0 <= j < rooms.len() && rooms[j].id == r && rooms[j].members.contains(users[i0].id);
        assert(users[i0].id != uid);
        if joined.contains(rooms[j].id) {
            lemma_without_contains(rooms[j].members, uid, users[i0].id);
        }
        assert(rs[j].id == r && rs[j].members.contains(us[i].id));
    }
}

/// User info for listing: identifier and coordinate.
#[derive(Debug)]
pub struct UserInfo {
    pub id: String,
    pub coord: DiskPoint,
}

/// What the server answers a client.
#[derive(Debug)]
pub enum ServerMessage {
    /// Chat message
    Message(ChatMessage),
    /// Room list
    RoomList { rooms: Vec<RoomInfo> },
    /// User list
    UserList { users: Vec<UserInfo> },
    /// Success response
    Success { message: String },
    /// Error response
    Error { message: String },
    /// Pong (keepalive response)
    Pong,
}

/// A message handed on to the connected user `to`.
#[derive(Debug)]
pub struct Delivery {
    pub to: String,
    pub message: ChatMessage,
}

/// `reply` answers a request refused for `refusal`, if that is some, with the refusal
/// as an error; otherwise with `done` as a success.
pub open spec fn reply_is(reply: ServerMessage, refusal: Option<Seq<char>>, done: Seq<char>) -> bool {
    match refusal {
        Some(e) => reply matches ServerMessage::Error { message } && message@ == e,
        None => reply matches ServerMessage::Success { message } && message@ == done,
    }
}

/// `infos` lists `users` in order: identifier and coordinate of each.
pub open spec fn user_listing(infos: Seq<UserInfo>, users: Seq<UserView>) -> bool {
    &&& infos.len() == users.len()
    &&& forall|i: int| 0 <= i < infos.len() ==> (#[trigger] infos[i]).id@ == users[i].id && infos[i].coord == users[i].coord
}

/// `m` is a text message from `sender` to `recipient` with `content`, in no room.
pub open spec fn direct_text(m: MessageView, sender: Seq<char>, recipient: Seq<char>, content: Seq<char>) -> bool {
    &&& m.id.len() == 36
    &&& m.sender == sender
    &&& m.recipient == recipient
    &&& m.kind == MessageKindView::Text { content }
    &&& m.room_id is None
}

/// `m` is a text message from `sender` to room `room` with `content`.
pub open spec fn room_text(m: MessageView, sender: Seq<char>, room: Seq<char>, content: Seq<char>) -> bool {
    &&& m.id.len() == 36
    &&& m.sender == sender
    &&& m.recipient == room
    &&& m.kind == MessageKindView::Text { content }
    &&& m.room_id == Some(room)
}

/// What a direct message with `content` from `sender` to `recipient`, routed as
/// `routing`, hands on: nothing when refused; otherwise the message to the recipient,
/// then, for a connected sender, the routing info to the sender.
pub open spec fn direct_deliveries(
    d: Seq<Delivery>,
    s: ChatStateView,
    routing: DeliveryResult,
    sender: Seq<char>,
    recipient: Seq<char>,
    content: Seq<char>,
) -> bool {
    match direct_refusal(s, routing, recipient) {
        Some(_) => d.len() == 0,
        None => {
            &&& d.len() == if find_user(s.users, sender) is Some { 2int } else { 1int }
            &&& d[0].to@ == recipient
            &&& direct_text(d[0].message@, sender, recipient, content)
            &&& d.len() == 2 ==> d[1].to@ == sender && routing_info_for(d[1].message, sender, routing)
        },
    }
}

/// Why a message to room `room` is refused, if it is: the room is unknown.
pub open spec fn room_refusal(s: ChatStateView, room: Seq<char>) -> Option<Seq<char>> {
    if find_room(s.rooms, room) is None {
        Some("Room "@ + room + " not found"@)
    } else {
        None
    }
}

/// What a message with `content` from `sender` to room `room` hands on: nothing when
/// refused; otherwise one and the same room message to each of the room's recipients,
/// in order.
pub open spec fn room_deliveries(d: Seq<Delivery>, s: ChatStateView, sender: Seq<char>, room: Seq<char>, content: Seq<char>) -> bool {
    match find_room(s.rooms, room) {
        None => d.len() == 0,
        Some(k) => {
            let to = room_recipients(s.users, s.rooms[k].members, sender);
            &&& d.len() == to.len()
            &&& forall|i: int|
                0 <= i < d.len() ==> (#[trigger] d[i]).to@ == to[i] && room_text(d[i].message@, sender, room, content)
                    && d[i].message@ == d[0].message@
        },
    }
}

/// Builds `a + b`.
fn concat2(a: &str, b: &str) -> (r: String)
    ensures
        r@ == a@ + b@,
{
    let mut out = a.to_owned();
    out.append(b);
    out
}

/// The same message for each recipient.
fn deliver_to_all(recipients: &Vec<String>, message: &ChatMessage) -> (r: Vec<Delivery>)
    ensures
        r@.len() == recipients@.len(),
        forall|i: int| 0 <= i < r@.len() ==> (#[trigger] r@[i]).to@ == recipients@[i]@ && r@[i].message@ == message@,
{
    let mut out: Vec<Delivery> = Vec::new();
    let mut i: usize = 0;
    while i < recipients.len()
        invariant
            i <= recipients.len(),
            out@.len() == i,
            forall|j: int| 0 <= j < i ==> (#[trigger] out@[j]).to@ == recipients@[j]@ && out@[j].message@ == message@,
        decreases recipients.len() - i,
    {
        out.push(Delivery { to: recipients[i].clone(), message: message.clone() });
        i = i + 1;
    }
    out
}

impl ChatServerState {
    /// The user listing: identifier and coordinate of each connected user.
    fn user_infos(&self) -> (r: Vec<UserInfo>)
        ensures
            user_listing(r@, self@.users),
    {
        let mut out: Vec<UserInfo> = Vec::new();
        let mut i: usize = 0;
        while i < self.users.len()
            invariant
                i <= self.users.len(),
                out@.len() == i,
                forall|j: int|
                    0 <= j < i ==> (#[trigger] out@[j]).id@ == self@.users[j].id && out@[j].coord == self@.users[j].coord,
            decreases self.users.len() - i,
        {
            let user = &self.users[i];
            out.push(UserInfo { id: user.id.clone(), coord: user.coord });
            i = i + 1;
        }
        out
    }
}

/// Handles a request of the connected user `user_id`: the answer to the user, and the
/// messages to hand on to other users. `routing` is the overlay's route from the user
/// to the recipient of a direct message, and `room_anchor` the anchor of a room to be
/// created; each is read by that request alone.
pub fn handle_client_message(
    state: &mut ChatServerState,
    user_id: &str,
    request: &ClientMessage,
    routing: &DeliveryResult,
    room_anchor: DiskPoint,
) -> (r: (ServerMessage, Vec<Delivery>))
    requires
        old(state).wf(),
    ensures
        final(state).wf(),
        memberships_agree(old(state)@.users, old(state)@.rooms) ==> memberships_agree(final(state)@.users, final(state)@.rooms),
        match request {
            ClientMessage::SendMessage { recipient, content } => {
                &&& final(state)@ == old(state)@
                &&& reply_is(r.0, direct_refusal(old(state)@, *routing, recipient@), "Message sent"@)
                &&& direct_deliveries(r.1@, old(state)@, *routing, user_id@, recipient@, content@)
            },
            ClientMessage::SendRoomMessage { room_id, content } => {
                &&& final(state)@ == old(state)@
                &&& reply_is(r.0, room_refusal(old(state)@, room_id@), "Message sent to room"@)
                &&& room_deliveries(r.1@, old(state)@, user_id@, room_id@, content@)
            },
            ClientMessage::JoinRoom { room_id } => {
                &&& reply_is(r.0, membership_refusal(old(state)@, user_id@, room_id@), "Joined room "@ + room_id@)
                &&& r.1@.len() == 0
                &&& match membership_refusal(old(state)@, user_id@, room_id@) {
                    Some(_) => final(state)@ == old(state)@,
                    None => joined(old(state)@, final(state)@, user_id@, room_id@),
                }
            },
            ClientMessage::LeaveRoom { room_id } => {
                &&& reply_is(r.0, membership_refusal(old(state)@, user_id@, room_id@), "Left room "@ + room_id@)
                &&& r.1@.len() == 0
                &&& match membership_refusal(old(state)@, user_id@, room_id@) {
                    Some(_) => final(state)@ == old(state)@,
                    None => left(old(state)@, final(state)@, user_id@, room_id@),
                }
            },
            ClientMessage::CreateRoom { room_id, name } => {
                &&& reply_is(r.0, creation_refusal(old(state)@, room_id@), "Created room "@ + room_id@)
                &&& r.1@.len() == 0
                &&& match creation_refusal(old(state)@, room_id@) {
                    Some(_) => final(state)@ == old(state)@,
                    None => created(old(state)@, final(state)@, room_id@, name@, room_anchor),
                }
            },
            ClientMessage::ListRooms => {
                &&& final(state)@ == old(state)@
                &&& r.0 matches ServerMessage::RoomList { rooms } && room_listing(rooms@, old(state)@.rooms)
                &&& r.1@.len() == 0
            },
            ClientMessage::ListUsers => {
                &&& final(state)@ == old(state)@
                &&& r.0 matches ServerMessage::UserList { users } && user_listing(users@, old(state)@.users)
                &&& r.1@.len() == 0
            },
            ClientMessage::Ping => {
                &&& final(state)@ == old(state)@
                &&& r.0 is Pong
                &&& r.1@.len() == 0
            },
        },
{
    match request {
        ClientMessage::SendMessage { recipient, content } => {
            let message = ChatMessage::new_text(user_id, recipient.as_str(), content.as_str());
            match state.send_message(&message, routing) {
                Ok(info) => {
                    let mut out: Vec<Delivery> = Vec::new();
                    out.push(Delivery { to: recipient.clone(), message });
                    match info {
                        Some(info) => out.push(Delivery { to: user_id.to_owned(), message: info }),
                        None => {},
                    }
                    proof { reveal_strlit("Message sent"); }
                    (ServerMessage::Success { message: "Message sent".to_owned() }, out)
                },
                Err(e) => (ServerMessage::Error { message: e }, Vec::new()),
            }
        },
        ClientMessage::SendRoomMessage { room_id, content } => {
            let message = ChatMessage::new_room_text(user_id, room_id.as_str(), content.as_str());
            match state.send_room_message(&message) {
                Ok(recipients) => {
                    let out = deliver_to_all(&recipients, &message);
                    proof { reveal_strlit("Message sent to room"); }
                    (ServerMessage::Success { message: "Message sent to room".to_owned() }, out)
                },
                Err(e) => (ServerMessage::Error { message: e }, Vec::new()),
            }
        },
        ClientMessage::JoinRoom { room_id } => match state.join_room(user_id, room_id.as_str()) {
            Ok(()) => (ServerMessage::Success { message: concat2("Joined room ", room_id.as_str()) }, Vec::new()),
            Err(e) => (ServerMessage::Error { message: e }, Vec::new()),
        },
        ClientMessage::LeaveRoom { room_id } => match state.leave_room(user_id, room_id.as_str()) {
            Ok(()) => (ServerMessage::Success { message: concat2("Left room ", room_id.as_str()) }, Vec::new()),
            Err(e) => (ServerMessage::Error { message: e }, Vec::new()),
        },
        ClientMessage::CreateRoom { room_id, name } => match state.create_room(room_id.as_str(), name.as_str(), room_anchor) {
            Ok(_) => (ServerMessage::Success { message: concat2("Created room ", room_id.as_str()) }, Vec::new()),
            Err(e) => (ServerMessage::Error { message: e }, Vec::new()),
        },
        ClientMessage::ListRooms => (ServerMessage::RoomList { rooms: state.list_rooms() }, Vec::new()),
        ClientMessage::ListUsers => (ServerMessage::UserList { users: state.user_infos() }, Vec::new()),
        ClientMessage::Ping => (ServerMessage::Pong, Vec::new()),
    }
}

/// The welcome a newly connected user `user` is sent.
pub open spec fn welcome_text(user: Seq<char>) -> Seq<char> {
    "Welcome, "@ + user + "!"@
}

/// Connects user `user_id` at routing coordinate `coord`, and says what the user is
/// sent first: the refusal as an error, and the connection ends there; or else a
/// system message that welcomes the user.
pub fn connect_user(state: &mut ChatServerState, user_id: &str, coord: DiskPoint) -> (r: ServerMessage)
    requires
        old(state).wf(),
    ensures
        final(state).wf(),
        memberships_agree(old(state)@.users, old(state)@.rooms) ==> memberships_agree(final(state)@.users, final(state)@.rooms),
        match registration_refusal(old(state)@, user_id@) {
            Some(e) => r matches ServerMessage::Error { message } && message@ == e && final(state)@ == old(state)@,
            None => {
                &&& registered(old(state)@, final(state)@, user_id@, coord)
                &&& r matches ServerMessage::Message(m) && m.id@.len() == 36 && m.sender@ == "system"@ && m.recipient@ == user_id@
                    && m.message_type@ == MessageKindView::System { message: welcome_text(user_id@) } && m.room_id is None
            },
        },
{
    match state.register_user(user_id, coord) {
        Ok(_) => {
            let text = concat3("Welcome, ", user_id, "!");
            ServerMessage::Message(ChatMessage::new_system(user_id, text.as_str()))
        },
        Err(e) => ServerMessage::Error { message: e },
    }
}

} // verus!
