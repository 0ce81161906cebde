use chat_server::{ChatServer, ClientMessage, Connect, Delivery, Disconnect, Join};

fn name(s: &str) -> String {
    s.to_owned()
}

fn join(hub: &mut ChatServer<&'static str>, id: usize, room: &str) -> Vec<Delivery> {
    hub.join(Join { id, name: name(room) })
}

fn send(hub: &ChatServer<&'static str>, id: usize, room: &str, text: &str) -> Vec<Delivery> {
    hub.broadcast(&ClientMessage { id, msg: name(text), room: name(room) })
}

fn targets(out: &[Delivery]) -> Vec<usize> {
    let mut ids: Vec<usize> = out.iter().map(|d| d.to).collect();
    ids.sort();
    ids
}

fn all_text(out: &[Delivery], text: &str) -> bool {
    out.iter().all(|d| d.text == text)
}

#[test]
fn new_hub_lists_only_main() {
    let hub: ChatServer<&'static str> = ChatServer::new();
    assert_eq!(hub.list_rooms(), vec![name("Main")]);
    assert!(hub.members(&name("Main")).is_empty());
}

#[test]
fn default_hub_lists_main() {
    let hub: ChatServer<u8> = ChatServer::default();
    assert!(hub.list_rooms().contains(&name("Main")));
}

#[test]
fn connect_puts_session_in_main_and_notifies_others() {
    let mut hub = ChatServer::new();
    assert!(hub.connect_with_id(7, "a").is_empty());
    assert_eq!(hub.members(&name("Main")), vec![7]);
    assert_eq!(hub.recipient(7), Some(&"a"));
    let out = hub.connect_with_id(9, "b");
    assert_eq!(targets(&out), vec![7]);
    assert!(all_text(&out, "Someone Joined!!"));
    assert_eq!(hub.members(&name("Main")), vec![7, 9]);
}

#[test]
fn connect_draws_distinct_random_ids() {
    let mut hub = ChatServer::new();
    let (id1, out1) = hub.connect(Connect { addr: "a" });
    let (id2, out2) = hub.connect(Connect { addr: "b" });
    assert_ne!(id1, id2);
    assert!(out1.is_empty());
    assert_eq!(targets(&out2), vec![id1]);
    assert_eq!(hub.recipient(id1), Some(&"a"));
    assert_eq!(hub.recipient(id2), Some(&"b"));
}

#[test]
fn connect_with_taken_id_replaces_capability() {
    let mut hub = ChatServer::new();
    hub.connect_with_id(3, "old");
    let out = hub.connect_with_id(3, "new");
    assert!(out.is_empty());
    assert_eq!(hub.recipient(3), Some(&"new"));
    assert_eq!(hub.members(&name("Main")), vec![3]);
}

#[test]
fn joins_leave_exactly_the_last_room() {
    let mut hub = ChatServer::new();
    hub.connect_with_id(1, "s");
    for room in ["a", "b", "c", "b"] {
        join(&mut hub, 1, room);
    }
    for room in ["Main", "a", "c"] {
        assert!(!hub.members(&name(room)).contains(&1));
    }
    assert_eq!(hub.members(&name("b")), vec![1]);
    assert_eq!(hub.list_rooms(), vec![name("Main"), name("a"), name("b"), name("c")]);
}

#[test]
fn disconnect_removes_from_registry_and_rooms() {
    let mut hub = ChatServer::new();
    hub.connect_with_id(1, "x");
    hub.connect_with_id(2, "y");
    hub.connect_with_id(3, "z");
    join(&mut hub, 2, "lobby");
    let out = hub.disconnect(Disconnect { id: 2 });
    assert!(out.is_empty());
    assert_eq!(hub.recipient(2), None);
    assert!(hub.members(&name("lobby")).is_empty());
    assert!(!hub.members(&name("Main")).contains(&2));
    for sender in [1, 3, 2] {
        for room in ["Main", "lobby"] {
            assert!(!targets(&send(&hub, sender, room, "hey")).contains(&2));
        }
    }
}

#[test]
fn disconnect_notifies_remaining_members() {
    let mut hub = ChatServer::new();
    hub.connect_with_id(1, "x");
    hub.connect_with_id(2, "y");
    hub.connect_with_id(3, "z");
    let out = hub.disconnect(Disconnect { id: 2 });
    assert_eq!(targets(&out), vec![1, 3]);
    assert!(all_text(&out, "Some disconnected"));
    assert_eq!(hub.members(&name("Main")), vec![1, 3]);
}

#[test]
fn disconnect_of_unknown_id_changes_nothing() {
    let mut hub = ChatServer::new();
    hub.connect_with_id(1, "x");
    join(&mut hub, 42, "ghosts");
    let out = hub.disconnect(Disconnect { id: 42 });
    assert!(out.is_empty());
    assert_eq!(hub.members(&name("ghosts")), vec![42]);
    assert_eq!(hub.members(&name("Main")), vec![1]);
}

#[test]
fn broadcast_skips_sender_and_outsiders() {
    let mut hub = ChatServer::new();
    for id in [1, 2, 3, 4] {
        hub.connect_with_id(id, "s");
    }
    join(&mut hub, 4, "other");
    let out = send(&hub, 2, "Main", "hello");
    assert_eq!(targets(&out), vec![1, 3]);
    assert!(all_text(&out, "hello"));
}

#[test]
fn broadcast_from_non_member_reaches_all_members() {
    let mut hub = ChatServer::new();
    hub.connect_with_id(1, "s");
    hub.connect_with_id(2, "t");
    assert_eq!(targets(&send(&hub, 99, "Main", "x")), vec![1, 2]);
}

#[test]
fn broadcast_skips_stale_members() {
    let mut hub = ChatServer::new();
    hub.connect_with_id(1, "s");
    join(&mut hub, 1, "r");
    join(&mut hub, 8, "r");
    assert!(send(&hub, 1, "r", "x").is_empty());
    assert_eq!(targets(&send(&hub, 8, "r", "x")), vec![1]);
}

#[test]
fn broadcast_to_unknown_room_delivers_nothing() {
    let mut hub = ChatServer::new();
    hub.connect_with_id(1, "s");
    hub.connect_with_id(2, "t");
    assert!(send(&hub, 1, "nonexistent-room", "text").is_empty());
    assert_eq!(hub.list_rooms(), vec![name("Main")]);
}

#[test]
fn join_notifies_existing_members_but_not_joiner() {
    let mut hub = ChatServer::new();
    for id in [10, 11, 12] {
        hub.connect_with_id(id, "s");
    }
    join(&mut hub, 10, "r");
    join(&mut hub, 11, "r");
    let out = join(&mut hub, 12, "r");
    assert_eq!(targets(&out), vec![10, 11]);
    assert!(all_text(&out, "Someone connected"));
    assert_eq!(hub.members(&name("r")), vec![10, 11, 12]);
}

#[test]
fn join_same_room_again_moves_member_last() {
    let mut hub = ChatServer::new();
    hub.connect_with_id(1, "s");
    hub.connect_with_id(2, "t");
    let out = join(&mut hub, 1, "Main");
    assert_eq!(targets(&out), vec![2]);
    assert_eq!(hub.members(&name("Main")), vec![2, 1]);
}

#[test]
fn lobby_scenario() {
    let mut hub = ChatServer::new();
    let (id1, _) = hub.connect(Connect { addr: "one" });
    let (id2, _) = hub.connect(Connect { addr: "two" });
    assert_ne!(id1, id2);
    let mut main = hub.members(&name("Main"));
    main.sort();
    let mut both = vec![id1, id2];
    both.sort();
    assert_eq!(main, both);
    let out = join(&mut hub, id2, "lobby");
    assert!(out.is_empty());
    assert_eq!(hub.members(&name("Main")), vec![id1]);
    assert_eq!(hub.members(&name("lobby")), vec![id2]);
    assert!(send(&hub, id1, "Main", "hi").is_empty());
    let out = hub.disconnect(Disconnect { id: id2 });
    assert!(out.is_empty());
    assert!(hub.members(&name("lobby")).is_empty());
    assert!(hub.list_rooms().contains(&name("lobby")));
}

#[test]
fn send_msg_reaches_each_member_once() {
    let mut hub = ChatServer::new();
    for id in [1, 2, 3] {
        hub.connect_with_id(id, "s");
    }
    join(&mut hub, 1, "Main");
    hub.connect_with_id(2, "again");
    let out = hub.send_msg(&name("Main"), &name("ping"), 3);
    assert_eq!(targets(&out), vec![1, 2]);
    assert!(all_text(&out, "ping"));
    assert!(hub.send_msg(&name("nowhere"), &name("ping"), 3).is_empty());
}

#[test]
fn list_rooms_names_each_room_once() {
    let mut hub = ChatServer::new();
    hub.connect_with_id(1, "s");
    for room in ["a", "Main", "a", "b", "b"] {
        join(&mut hub, 1, room);
    }
    assert_eq!(hub.list_rooms(), vec![name("Main"), name("a"), name("b")]);
}
