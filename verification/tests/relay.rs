use room_relay::label::{pseudonym, u64_to_decimal};
use room_relay::registry::Registry;
use room_relay::router::{handle_event, handle_message, handle_message_at, Event, MessageIn};

fn msg(room: &str, text: &str) -> MessageIn {
    MessageIn { room: room.to_string(), text: text.to_string() }
}

fn sorted(mut v: Vec<u64>) -> Vec<u64> {
    v.sort();
    v
}

#[test]
fn lobby_broadcast_reaches_both_members() {
    let mut reg = Registry::new();
    reg.on_connect(1);
    reg.on_connect(2);
    reg.join(1, "lobby".to_string());
    reg.join(2, "lobby".to_string());
    let b = handle_message_at(&reg, 1, msg("lobby", "hi"), 777).expect("well-formed message");
    assert_eq!(b.room, "lobby");
    assert_eq!(b.message.text, "hi");
    assert_eq!(b.message.user, "anon-1");
    assert_eq!(b.message.date_millis, 777);
    assert_eq!(sorted(b.recipients), vec![1, 2]);
}

#[test]
fn other_room_broadcast_stays_there() {
    let mut reg = Registry::new();
    reg.on_connect(1);
    reg.on_connect(2);
    reg.on_connect(3);
    reg.join(1, "lobby".to_string());
    reg.join(2, "lobby".to_string());
    reg.join(3, "other".to_string());
    let b = handle_message_at(&reg, 3, msg("other", "psst"), 0).expect("well-formed message");
    assert_eq!(b.recipients, vec![3]);
    assert!(!b.recipients.contains(&1));
    assert!(!b.recipients.contains(&2));
}

#[test]
fn switching_rooms_leaves_the_old_one() {
    let mut reg = Registry::new();
    reg.on_connect(1);
    reg.on_connect(2);
    reg.join(1, "lobby".to_string());
    reg.join(2, "lobby".to_string());
    reg.join(1, "cave".to_string());
    assert_eq!(reg.members_of(&"lobby".to_string()), vec![2]);
    assert_eq!(reg.members_of(&"cave".to_string()), vec![1]);
    let b = handle_message_at(&reg, 2, msg("lobby", "anyone?"), 0).expect("well-formed message");
    assert!(!b.recipients.contains(&1));
    assert_eq!(b.recipients, vec![2]);
}

#[test]
fn broadcast_after_disconnect_skips_the_peer() {
    let mut reg = Registry::new();
    reg.on_connect(1);
    reg.on_connect(2);
    reg.join(1, "shared".to_string());
    reg.join(2, "shared".to_string());
    reg.on_disconnect(1);
    let b = handle_message_at(&reg, 2, msg("shared", "still here"), 0)
        .expect("well-formed message");
    assert!(!b.recipients.contains(&1));
    assert_eq!(b.recipients, vec![2]);
}

#[test]
fn joining_the_same_room_twice_changes_nothing() {
    let mut reg = Registry::new();
    reg.on_connect(1);
    reg.on_connect(2);
    reg.join(1, "lobby".to_string());
    reg.join(2, "lobby".to_string());
    let before = sorted(reg.members_of(&"lobby".to_string()));
    reg.join(1, "lobby".to_string());
    let after = sorted(reg.members_of(&"lobby".to_string()));
    assert_eq!(before, after);
    assert_eq!(after, vec![1, 2]);
}

#[test]
fn duplicate_disconnect_is_idempotent() {
    let mut reg = Registry::new();
    reg.on_connect(1);
    reg.on_connect(2);
    reg.join(1, "lobby".to_string());
    reg.join(2, "lobby".to_string());
    reg.on_disconnect(1);
    reg.on_disconnect(1);
    assert_eq!(reg.members_of(&"lobby".to_string()), vec![2]);
}

#[test]
fn empty_room_label_is_dropped() {
    let mut reg = Registry::new();
    reg.on_connect(1);
    reg.join(1, "lobby".to_string());
    assert!(handle_message_at(&reg, 1, msg("", "hi"), 0).is_none());
}

#[test]
fn empty_text_is_permitted() {
    let mut reg = Registry::new();
    reg.on_connect(1);
    reg.join(1, "lobby".to_string());
    let b = handle_message_at(&reg, 1, msg("lobby", ""), 0).expect("empty text is well-formed");
    assert_eq!(b.message.text, "");
    assert_eq!(b.recipients, vec![1]);
}

#[test]
fn unknown_room_has_no_members() {
    let mut reg = Registry::new();
    reg.on_connect(1);
    reg.join(1, "lobby".to_string());
    assert!(reg.members_of(&"nowhere".to_string()).is_empty());
    assert!(reg.members_of(&"".to_string()).is_empty());
}

#[test]
fn broadcast_to_empty_room_succeeds_with_no_recipients() {
    let mut reg = Registry::new();
    reg.on_connect(1);
    let b = handle_message_at(&reg, 1, msg("lobby", "hello?"), 0)
        .expect("well-formed message");
    assert!(b.recipients.is_empty());
}

#[test]
fn unjoined_connection_is_in_no_room() {
    let mut reg = Registry::new();
    reg.on_connect(1);
    reg.on_connect(2);
    reg.join(2, "lobby".to_string());
    assert_eq!(reg.members_of(&"lobby".to_string()), vec![2]);
}

#[test]
fn event_dispatch_drives_the_registry() {
    let mut reg = Registry::new();
    assert!(handle_event(&mut reg, Event::Connect { id: 1 }).is_none());
    assert!(handle_event(&mut reg, Event::Connect { id: 2 }).is_none());
    assert!(handle_event(&mut reg, Event::Join { id: 1, room: "lobby".to_string() }).is_none());
    assert!(handle_event(&mut reg, Event::Join { id: 2, room: "lobby".to_string() }).is_none());
    let b = handle_event(&mut reg, Event::Message { id: 1, msg: msg("lobby", "hi") })
        .expect("well-formed message");
    assert_eq!(sorted(b.recipients), vec![1, 2]);
    assert!(handle_event(&mut reg, Event::Disconnect { id: 2 }).is_none());
    assert_eq!(reg.members_of(&"lobby".to_string()), vec![1]);
}

#[test]
fn malformed_join_is_dropped_silently() {
    let mut reg = Registry::new();
    reg.on_connect(1);
    reg.join(1, "lobby".to_string());
    assert!(handle_event(&mut reg, Event::Join { id: 1, room: "".to_string() }).is_none());
    assert_eq!(reg.members_of(&"lobby".to_string()), vec![1]);
}

#[test]
fn malformed_message_event_is_dropped_silently() {
    let mut reg = Registry::new();
    reg.on_connect(1);
    reg.join(1, "lobby".to_string());
    assert!(handle_event(&mut reg, Event::Message { id: 1, msg: msg("", "hi") }).is_none());
    assert_eq!(reg.members_of(&"lobby".to_string()), vec![1]);
}

#[test]
fn message_timestamp_is_close_to_now() {
    let mut reg = Registry::new();
    reg.on_connect(1);
    reg.join(1, "lobby".to_string());
    let before = chrono::Utc::now().timestamp_millis();
    let b = handle_message(&reg, 1, msg("lobby", "hi")).expect("well-formed message");
    let after = chrono::Utc::now().timestamp_millis();
    assert!(before <= b.message.date_millis && b.message.date_millis <= after);
    assert_eq!(b.message.user, "anon-1");
    assert_eq!(b.recipients, vec![1]);
}

#[test]
fn pseudonym_is_prefix_plus_decimal_id() {
    assert_eq!(pseudonym(0), "anon-0");
    assert_eq!(pseudonym(7), "anon-7");
    assert_eq!(pseudonym(42), "anon-42");
    assert_eq!(pseudonym(u64::MAX), "anon-18446744073709551615");
}

#[test]
fn pseudonyms_of_distinct_connections_differ() {
    assert_ne!(pseudonym(1), pseudonym(2));
    assert_ne!(pseudonym(10), pseudonym(100));
    assert_ne!(pseudonym(0), pseudonym(u64::MAX));
}

#[test]
fn decimal_rendering_matches_std_formatting() {
    for n in [0u64, 1, 9, 10, 99, 100, 1023, 1234567890, u64::MAX] {
        assert_eq!(u64_to_decimal(n), format!("{}", n));
    }
}

#[test]
fn a_connection_is_member_of_only_its_latest_room() {
    let mut reg = Registry::new();
    reg.on_connect(5);
    reg.join(5, "one".to_string());
    reg.join(5, "two".to_string());
    reg.join(5, "three".to_string());
    assert!(reg.members_of(&"one".to_string()).is_empty());
    assert!(reg.members_of(&"two".to_string()).is_empty());
    assert_eq!(reg.members_of(&"three".to_string()), vec![5]);
}

#[test]
fn members_reflect_last_joins_after_mixed_trace() {
    let mut reg = Registry::new();
    reg.on_connect(1);
    reg.on_connect(2);
    reg.on_connect(3);
    reg.join(1, "a".to_string());
    reg.join(2, "a".to_string());
    reg.join(3, "b".to_string());
    reg.join(2, "b".to_string());
    reg.leave_all(3);
    reg.on_disconnect(1);
    // 1 disconnected, 2's last join targeted "b", 3 left everything.
    assert!(reg.members_of(&"a".to_string()).is_empty());
    assert_eq!(reg.members_of(&"b".to_string()), vec![2]);
    reg.on_connect(4);
    reg.join(4, "b".to_string());
    assert_eq!(sorted(reg.members_of(&"b".to_string())), vec![2, 4]);
}
