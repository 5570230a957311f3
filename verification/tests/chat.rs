use drfe_r::chat::{
    connect_user, handle_client_message, routing_mode_text, ChatMessage, ChatMessageType, ChatRoom, ChatServerState, ClientMessage,
    ConnectedUser, ServerMessage,
};
use drfe_r::coordinates::NodeId;
use drfe_r::routing::DeliveryResult;
use drfe_r::coordinates::DiskPoint;

fn point(x: f64, y: f64) -> DiskPoint {
    DiskPoint { x_bits: x.to_bits(), y_bits: y.to_bits() }
}

fn norm(p: &DiskPoint) -> f64 {
    let x = f64::from_bits(p.x_bits);
    let y = f64::from_bits(p.y_bits);
    (x * x + y * y).sqrt()
}

#[test]
fn test_chat_room_creation() {
    let anchor = point(0.3, -0.4);
    let room = ChatRoom::new("general", "General Chat", anchor);
    assert_eq!(room.id, "general");
    assert_eq!(room.name, "General Chat");
    assert!(room.members.is_empty());

    // The room keeps the anchor it was given, bit for bit, inside the Poincaré disk
    assert_eq!(room.anchor_coord, anchor);
    assert!(norm(&room.anchor_coord) < 1.0);
}

#[test]
fn test_connected_user_creation() {
    let coord = point(-0.1, 0.2);
    let user = ConnectedUser::new("alice", coord);
    assert_eq!(user.id, "alice");
    assert!(user.rooms.is_empty());

    // The user keeps the coordinate it was given, bit for bit, inside the Poincaré disk
    assert_eq!(user.coord, coord);
    assert!(norm(&user.coord) < 1.0);
}

#[test]
fn test_chat_message_creation() {
    let msg = ChatMessage::new_text("alice", "bob", "Hello!");
    assert_eq!(msg.sender, "alice");
    assert_eq!(msg.recipient, "bob");

    match msg.message_type {
        ChatMessageType::Text { content } => assert_eq!(content, "Hello!"),
        _ => panic!("Expected Text message type"),
    }
}

#[test]
fn test_chat_server_state_creation() {
    let state = ChatServerState::new();
    assert!(state.get_all_users().is_empty());
    assert!(state.get_all_rooms().is_empty());
}

#[test]
fn test_user_registration() {
    let mut state = ChatServerState::new();

    let user = state.register_user("alice", point(0.1, 0.1)).unwrap();
    assert_eq!(user.id, "alice");

    // Duplicate registration should fail
    let result = state.register_user("alice", point(0.1, 0.1));
    assert!(result.is_err());
}

#[test]
fn test_user_unregistration() {
    let mut state = ChatServerState::new();

    state.register_user("alice", point(0.1, 0.1)).unwrap();
    assert!(state.get_user("alice").is_some());

    state.unregister_user("alice");
    assert!(state.get_user("alice").is_none());
}

#[test]
fn test_room_creation() {
    let mut state = ChatServerState::new();

    let room = state.create_room("general", "General Chat", point(0.2, 0.0)).unwrap();
    assert_eq!(room.id, "general");
    assert_eq!(room.name, "General Chat");

    // Duplicate room should fail
    let result = state.create_room("general", "Another General", point(0.2, 0.0));
    assert!(result.is_err());
}

#[test]
fn test_join_leave_room() {
    let mut state = ChatServerState::new();

    state.register_user("alice", point(0.1, 0.1)).unwrap();
    state.create_room("general", "General Chat", point(0.2, 0.0)).unwrap();

    // Join room
    state.join_room("alice", "general").unwrap();

    let room = state.get_room("general").unwrap();
    assert!(room.is_member("alice"));

    // Leave room
    state.leave_room("alice", "general").unwrap();

    let room = state.get_room("general").unwrap();
    assert!(!room.is_member("alice"));
}

#[test]
fn test_can_send_message() {
    let mut state = ChatServerState::new();

    state.register_user("alice", point(0.1, 0.1)).unwrap();
    state.register_user("bob", point(-0.1, 0.1)).unwrap();

    // Both users connected - can send
    assert!(state.can_send_message("alice", "bob"));

    // Unregister bob
    state.unregister_user("bob");

    // Bob not connected - cannot send
    assert!(!state.can_send_message("alice", "bob"));
}

#[test]
fn chat_errors_name_the_missing_party() {
    let mut state = ChatServerState::new();
    assert_eq!(state.join_room("alice", "general").unwrap_err(), "User alice not found");
    state.register_user("alice", point(0.1, 0.1)).unwrap();
    assert_eq!(state.join_room("alice", "general").unwrap_err(), "Room general not found");
    assert_eq!(state.register_user("alice", point(0.1, 0.1)).unwrap_err(), "User alice already connected");
    state.create_room("general", "General", point(0.0, 0.0)).unwrap();
    assert_eq!(
        state.create_room("general", "Again", point(0.0, 0.0)).unwrap_err(),
        "Room general already exists"
    );
}

#[test]
fn chat_unregistering_leaves_every_room() {
    let mut state = ChatServerState::new();
    state.register_user("alice", point(0.1, 0.1)).unwrap();
    state.register_user("bob", point(0.2, 0.1)).unwrap();
    state.create_room("r1", "One", point(0.0, 0.0)).unwrap();
    state.create_room("r2", "Two", point(0.0, 0.1)).unwrap();
    state.join_room("alice", "r1").unwrap();
    state.join_room("alice", "r2").unwrap();
    state.join_room("bob", "r2").unwrap();
    state.unregister_user("alice");
    assert!(!state.get_room("r1").unwrap().is_member("alice"));
    assert!(!state.get_room("r2").unwrap().is_member("alice"));
    assert!(state.get_room("r2").unwrap().is_member("bob"));
}

#[test]
fn chat_join_links_user_and_room_in_the_router() {
    let mut state = ChatServerState::new();
    state.register_user("alice", point(0.1, 0.1)).unwrap();
    state.create_room("general", "General", point(0.0, 0.0)).unwrap();
    state.join_room("alice", "general").unwrap();
    // Joining twice changes nothing.
    state.join_room("alice", "general").unwrap();
    let router = state.router();
    assert_eq!(router.node_count(), 2);
    assert_eq!(router.edge_count(), 1);
    let user = state.get_user("alice").unwrap();
    assert_eq!(user.rooms, vec!["general".to_string()]);
    assert_eq!(state.get_room("general").unwrap().members, vec!["alice".to_string()]);
}

#[test]
fn chat_room_message_goes_to_connected_members_but_the_sender() {
    let mut state = ChatServerState::new();
    state.register_user("alice", point(0.1, 0.1)).unwrap();
    state.register_user("bob", point(0.2, 0.1)).unwrap();
    state.register_user("carol", point(0.3, 0.1)).unwrap();
    state.create_room("general", "General", point(0.0, 0.0)).unwrap();
    for u in ["alice", "bob", "carol"] {
        state.join_room(u, "general").unwrap();
    }
    state.unregister_user("carol");
    let msg = ChatMessage::new_room_text("alice", "general", "hi");
    assert_eq!(state.send_room_message(&msg).unwrap(), vec!["bob".to_string()]);

    let direct = ChatMessage::new_text("alice", "bob", "hi");
    assert_eq!(state.send_room_message(&direct).unwrap_err(), "Room ID not specified");
    let elsewhere = ChatMessage::new_room_text("alice", "nowhere", "hi");
    assert_eq!(state.send_room_message(&elsewhere).unwrap_err(), "Room nowhere not found");
}

#[test]
fn chat_room_membership_has_no_duplicates() {
    let mut room = ChatRoom::new("r", "Room", point(0.0, 0.0));
    room.add_member("alice");
    room.add_member("alice");
    room.add_member("bob");
    assert_eq!(room.members, vec!["alice".to_string(), "bob".to_string()]);
    room.remove_member("alice");
    assert_eq!(room.members, vec!["bob".to_string()]);
    assert!(!room.is_member("alice"));
}

#[test]
fn chat_message_ids_are_hyphenated_uuids() {
    let m = ChatMessage::new_system("alice", "Welcome, alice!");
    assert_eq!(m.id.len(), 36);
    assert_eq!(&m.id[8..9], "-");
    assert_eq!(m.sender, "system");
    let other = ChatMessage::new_error("alice", "oops");
    assert_ne!(m.id, other.id);
}

#[test]
fn chat_room_listing_counts_members() {
    let mut state = ChatServerState::new();
    state.register_user("alice", point(0.1, 0.1)).unwrap();
    state.create_room("general", "General", point(0.0, 0.0)).unwrap();
    state.join_room("alice", "general").unwrap();
    let rooms = state.list_rooms();
    assert_eq!(rooms.len(), 1);
    assert_eq!(rooms[0].id, "general");
    assert_eq!(rooms[0].member_count, 1);
}

fn delivery(success: bool, reason: Option<&str>) -> DeliveryResult {
    DeliveryResult {
        success,
        hops: 3,
        gravity_hops: 2,
        pressure_hops: 0,
        tree_hops: 11,
        path: vec![NodeId::new("alice"), NodeId::new("relay"), NodeId::new("bob")],
        failure_reason: reason.map(|r| r.to_string()),
    }
}

#[test]
fn chat_direct_message_reports_routing_to_the_sender() {
    let mut state = ChatServerState::new();
    state.register_user("alice", point(0.1, 0.1)).unwrap();
    state.register_user("bob", point(-0.1, 0.1)).unwrap();
    let msg = ChatMessage::new_text("alice", "bob", "Hello, Bob!");
    let info = state.send_message(&msg, &delivery(true, None)).unwrap().unwrap();
    assert_eq!(info.recipient, "alice");
    assert_eq!(info.sender, "system");
    match info.message_type {
        ChatMessageType::RoutingInfo { path, mode, hops } => {
            assert_eq!(path, vec!["alice", "relay", "bob"]);
            assert_eq!(mode, "G:2/P:0/T:11");
            assert_eq!(hops, 3);
        }
        other => panic!("unexpected message type {:?}", other),
    }
}

#[test]
fn chat_direct_message_errors() {
    let mut state = ChatServerState::new();
    state.register_user("alice", point(0.1, 0.1)).unwrap();
    let msg = ChatMessage::new_text("alice", "bob", "hi");
    assert_eq!(state.send_message(&msg, &delivery(false, None)).unwrap_err(), "Message routing failed: Unknown error");
    assert_eq!(
        state.send_message(&msg, &delivery(false, Some("TTL expired"))).unwrap_err(),
        "Message routing failed: TTL expired"
    );
    assert_eq!(state.send_message(&msg, &delivery(true, None)).unwrap_err(), "Recipient bob not connected");
    // a sender that is not connected gets no routing report
    let from_ghost = ChatMessage::new_text("ghost", "alice", "boo");
    assert!(state.send_message(&from_ghost, &delivery(true, None)).unwrap().is_none());
}

#[test]
fn chat_routing_mode_text_is_decimal() {
    assert_eq!(routing_mode_text(0, 10, u32::MAX), format!("G:0/P:10/T:{}", u32::MAX));
}

fn answer(
    state: &mut ChatServerState,
    user: &str,
    request: ClientMessage,
) -> (ServerMessage, Vec<drfe_r::chat::Delivery>) {
    handle_client_message(state, user, &request, &delivery(true, None), point(0.2, 0.2))
}

fn success_text(reply: &ServerMessage) -> &str {
    match reply {
        ServerMessage::Success { message } => message,
        other => panic!("expected a success, got {:?}", other),
    }
}

fn error_text(reply: &ServerMessage) -> &str {
    match reply {
        ServerMessage::Error { message } => message,
        other => panic!("expected an error, got {:?}", other),
    }
}

#[test]
fn chat_requests_on_rooms_are_answered() {
    let mut state = ChatServerState::new();
    state.register_user("alice", point(0.1, 0.1)).unwrap();

    let (reply, out) = answer(&mut state, "alice", ClientMessage::CreateRoom { room_id: "general".into(), name: "General".into() });
    assert_eq!(success_text(&reply), "Created room general");
    assert!(out.is_empty());
    let (reply, _) = answer(&mut state, "alice", ClientMessage::CreateRoom { room_id: "general".into(), name: "Again".into() });
    assert_eq!(error_text(&reply), "Room general already exists");

    let (reply, _) = answer(&mut state, "alice", ClientMessage::JoinRoom { room_id: "general".into() });
    assert_eq!(success_text(&reply), "Joined room general");
    assert!(state.get_room("general").unwrap().is_member("alice"));
    let (reply, _) = answer(&mut state, "alice", ClientMessage::JoinRoom { room_id: "random".into() });
    assert_eq!(error_text(&reply), "Room random not found");
    let (reply, _) = answer(&mut state, "carol", ClientMessage::JoinRoom { room_id: "general".into() });
    assert_eq!(error_text(&reply), "User carol not found");

    let (reply, _) = answer(&mut state, "alice", ClientMessage::ListRooms);
    match reply {
        ServerMessage::RoomList { rooms } => {
            assert_eq!(rooms.len(), 1);
            assert_eq!(rooms[0].id, "general");
            assert_eq!(rooms[0].name, "General");
            assert_eq!(rooms[0].member_count, 1);
        }
        other => panic!("expected a room list, got {:?}", other),
    }

    let (reply, _) = answer(&mut state, "alice", ClientMessage::LeaveRoom { room_id: "general".into() });
    assert_eq!(success_text(&reply), "Left room general");
    assert!(!state.get_room("general").unwrap().is_member("alice"));
    assert!(state.get_user("alice").unwrap().rooms.is_empty());
}

#[test]
fn chat_direct_request_hands_on_message_and_routing_info() {
    let mut state = ChatServerState::new();
    state.register_user("alice", point(0.1, 0.1)).unwrap();
    state.register_user("bob", point(-0.1, 0.1)).unwrap();

    let (reply, out) = answer(&mut state, "alice", ClientMessage::SendMessage { recipient: "bob".into(), content: "hi".into() });
    assert_eq!(success_text(&reply), "Message sent");
    assert_eq!(out.len(), 2);
    assert_eq!(out[0].to, "bob");
    assert_eq!(out[0].message.sender, "alice");
    assert_eq!(out[0].message.recipient, "bob");
    match &out[0].message.message_type {
        ChatMessageType::Text { content } => assert_eq!(content, "hi"),
        other => panic!("unexpected message type {:?}", other),
    }
    assert_eq!(out[1].to, "alice");
    match &out[1].message.message_type {
        ChatMessageType::RoutingInfo { mode, hops, .. } => {
            assert_eq!(mode, "G:2/P:0/T:11");
            assert_eq!(*hops, 3);
        }
        other => panic!("unexpected message type {:?}", other),
    }

    let (reply, out) = answer(&mut state, "alice", ClientMessage::SendMessage { recipient: "dave".into(), content: "hi".into() });
    assert_eq!(error_text(&reply), "Recipient dave not connected");
    assert!(out.is_empty());

    let failed = delivery(false, Some("TTL expired"));
    let request = ClientMessage::SendMessage { recipient: "bob".into(), content: "hi".into() };
    let (reply, out) = handle_client_message(&mut state, "alice", &request, &failed, point(0.0, 0.0));
    assert_eq!(error_text(&reply), "Message routing failed: TTL expired");
    assert!(out.is_empty());
}

#[test]
fn chat_room_request_reaches_the_other_members() {
    let mut state = ChatServerState::new();
    for user in ["alice", "bob", "carol"] {
        state.register_user(user, point(0.1, 0.1)).unwrap();
    }
    answer(&mut state, "alice", ClientMessage::CreateRoom { room_id: "general".into(), name: "General".into() });
    for user in ["alice", "bob", "carol"] {
        answer(&mut state, user, ClientMessage::JoinRoom { room_id: "general".into() });
    }

    let (reply, out) = answer(&mut state, "bob", ClientMessage::SendRoomMessage { room_id: "general".into(), content: "hello all".into() });
    assert_eq!(success_text(&reply), "Message sent to room");
    let to: Vec<&str> = out.iter().map(|d| d.to.as_str()).collect();
    assert_eq!(to, vec!["alice", "carol"]);
    assert_eq!(out[0].message.id, out[1].message.id);
    assert_eq!(out[0].message.room_id.as_deref(), Some("general"));

    let (reply, out) = answer(&mut state, "bob", ClientMessage::SendRoomMessage { room_id: "lobby".into(), content: "?".into() });
    assert_eq!(error_text(&reply), "Room lobby not found");
    assert!(out.is_empty());
}

#[test]
fn chat_lists_users_and_answers_ping() {
    let mut state = ChatServerState::new();
    state.register_user("alice", point(0.25, -0.5)).unwrap();
    let (reply, _) = answer(&mut state, "alice", ClientMessage::ListUsers);
    match reply {
        ServerMessage::UserList { users } => {
            assert_eq!(users.len(), 1);
            assert_eq!(users[0].id, "alice");
            assert_eq!(f64::from_bits(users[0].coord.x_bits), 0.25);
            assert_eq!(f64::from_bits(users[0].coord.y_bits), -0.5);
        }
        other => panic!("expected a user list, got {:?}", other),
    }
    let (reply, out) = answer(&mut state, "alice", ClientMessage::Ping);
    assert!(matches!(reply, ServerMessage::Pong));
    assert!(out.is_empty());
}

#[test]
fn chat_connecting_user_is_welcomed_once() {
    let mut state = ChatServerState::new();
    match connect_user(&mut state, "alice", point(0.1, 0.2)) {
        ServerMessage::Message(m) => {
            assert_eq!(m.sender, "system");
            assert_eq!(m.recipient, "alice");
            match m.message_type {
                ChatMessageType::System { message } => assert_eq!(message, "Welcome, alice!"),
                other => panic!("unexpected message type {:?}", other),
            }
        }
        other => panic!("expected a welcome, got {:?}", other),
    }
    assert!(state.get_user("alice").is_some());
    let reply = connect_user(&mut state, "alice", point(0.1, 0.2));
    assert_eq!(error_text(&reply), "User alice already connected");
    assert_eq!(state.get_all_users().len(), 1);
}
