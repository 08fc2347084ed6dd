use localhost::session::{
    generate_session_id, parse_session_id, session_id_at, SessionStore, SESSION_TIMEOUT_SECS,
};

#[test]
fn names_of_sessions() {
    assert_eq!(session_id_at(0), "00000000000000000000000000000000");
    assert_eq!(session_id_at(1), "00000000000200015851f42d4c957f2d");
    let t: u64 = 1_700_000_000;
    let mixed = t ^ (t << 17) ^ (t >> 3);
    assert_eq!(
        session_id_at(t),
        format!("{:016x}{:016x}", mixed, t.wrapping_mul(6364136223846793005))
    );
    let id = generate_session_id();
    assert_eq!(id.len(), 32);
    assert!(id.chars().all(|c| c.is_ascii_hexdigit()));
    assert!(id != session_id_at(0));
}

#[test]
fn cookies_name_sessions() {
    let id = session_id_at(12345);
    let cookie = format!("session_id={}", id);
    assert_eq!(parse_session_id(&cookie), Some(id.clone()));
    assert_eq!(parse_session_id(&format!("a=b; {}; c=d", cookie)), Some(id.clone()));
    assert_eq!(parse_session_id(&format!("{}; HttpOnly; Path=/", cookie)), Some(id));
    assert_eq!(parse_session_id("session_id= x "), Some("x".to_string()));
    assert_eq!(parse_session_id("session_id="), Some(String::new()));
    assert_eq!(parse_session_id("xsession_id=1"), None);
    assert_eq!(parse_session_id(""), None);
}

#[test]
fn sessions_live_while_they_are_used() {
    let mut store = SessionStore::new();
    let start: u64 = 1000;
    let id = store.create_session_at(start);
    assert_eq!(id, session_id_at(start));
    assert!(store.get_at(&id, start + SESSION_TIMEOUT_SECS).is_some());
    let used = start + SESSION_TIMEOUT_SECS;
    assert!(store.get_at(&id, used + SESSION_TIMEOUT_SECS).is_some());
    let used = used + SESSION_TIMEOUT_SECS;
    assert!(store.get_at(&id, used + SESSION_TIMEOUT_SECS + 1).is_none());
    assert!(store.get_at(&id, used).is_none());
}

#[test]
fn values_are_kept() {
    let mut store = SessionStore::new();
    let id = store.create_session_at(10);
    store.set_at(&id, "k", "v", 20);
    store.set_at(&id, "l", "w", 20);
    store.set_at(&id, "k", "x", 30);
    store.set_at("unknown", "k", "v", 30);
    let data = store.get_at(&id, 40).unwrap();
    assert_eq!(data.get("k").unwrap(), "x");
    assert_eq!(data.get("l").unwrap(), "w");
    assert_eq!(data.len(), 2);
    assert!(store.get_at("unknown", 40).is_none());
}

#[test]
fn ended_sessions_are_gone() {
    let mut store = SessionStore::new();
    let id = store.create_session();
    assert!(store.get(&id).is_some());
    store.set(&id, "a", "b");
    assert_eq!(store.get(&id).unwrap().get("a").unwrap(), "b");
    store.purge_expired();
    assert!(store.get(&id).is_some());
    store.destroy(&id);
    assert!(store.get(&id).is_none());
}

#[test]
fn only_expired_sessions_are_dropped() {
    let mut store = SessionStore::new();
    let old = store.create_session_at(0);
    let young = store.create_session_at(100);
    store.purge_expired_at(SESSION_TIMEOUT_SECS + 50);
    assert!(store.get_at(&old, 0).is_none());
    assert!(store.get_at(&young, 100).is_some());
}
