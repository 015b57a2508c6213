use tokio_web_demo::chat::{is_system_name, user_hash, Chat, ChatMessage};

#[test]
fn join_is_unique_per_name() {
    let mut chat = Chat::new(1000);
    assert!(chat.join("alice".to_string()).is_ok());
    assert_eq!(chat.join("alice".to_string()), Err("user already in chat"));
    assert!(chat.join("bob".to_string()).is_ok());
    assert_eq!(chat.users.len(), 2);
}

#[test]
fn leave_reports_presence() {
    let mut chat = Chat::new(1000);
    chat.join("alice".to_string()).unwrap();
    chat.join("bob".to_string()).unwrap();
    assert!(chat.leave(&"alice".to_string()));
    assert!(!chat.leave(&"alice".to_string()));
    assert_eq!(chat.users.len(), 1);
    assert!(chat.join("alice".to_string()).is_ok());
}

#[test]
fn find_resolves_the_name_hash() {
    let mut chat = Chat::new(1000);
    chat.join("alice".to_string()).unwrap();
    chat.join("bob".to_string()).unwrap();
    let alice = seahash::hash("alice".as_bytes());
    let bob = seahash::hash("bob".as_bytes());
    assert_eq!(chat.find(alice), Some("alice".to_string()));
    assert_eq!(chat.find(bob), Some("bob".to_string()));
    chat.leave(&"alice".to_string());
    assert_eq!(chat.find(alice), None);
}

#[test]
fn hash_matches_the_underlying_function() {
    assert_eq!(user_hash("carol"), seahash::hash("carol".as_bytes()));
    assert_ne!(user_hash("carol"), user_hash("dave"));
}

#[test]
fn system_name_is_reserved_in_any_case() {
    assert!(is_system_name("system"));
    assert!(is_system_name("SyStEm"));
    assert!(!is_system_name("systems"));
    assert!(!is_system_name("admin"));
}

#[test]
fn log_drops_the_oldest_past_capacity() {
    let mut chat = Chat::new(1000);
    for i in 0..1001u32 {
        chat.log_message(ChatMessage {
            timestamp_ms: i as i64,
            username: "alice".to_string(),
            message: format!("{}", i),
        });
    }
    assert_eq!(chat.log.len(), 1000);
    assert_eq!(chat.log[0].message, "1");
    assert_eq!(chat.log[999].message, "1000");
}
