use pulsar_web::session::{SessionStorage, SESSION_SECONDS};

fn s(text: &str) -> String {
    text.to_string()
}

#[test]
fn new_store_is_empty() {
    let store = SessionStorage::new();
    assert_eq!(store.len(), 0);
    assert!(store.validate_session("nothing").is_none());
}

#[test]
fn session_lives_one_hour() {
    assert_eq!(SESSION_SECONDS, 3600);
    let mut store = SessionStorage::new();
    store.create_session_at(s("id-1"), s("u1"), 1000);
    let session = store.validate_session_at("id-1", 1000).unwrap();
    assert_eq!(session.user_id, s("u1"));
    assert_eq!(session.expires_at, 4600);
}

#[test]
fn created_session_is_valid_until_it_expires() {
    let mut store = SessionStorage::new();
    store.create_session_at(s("id-1"), s("u1"), 1000);
    assert!(store.validate_session_at("id-1", 1000).is_some());
    assert!(store.validate_session_at("id-1", 4599).is_some());
    assert!(store.validate_session_at("id-1", 4600).is_none());
    assert!(store.validate_session_at("id-1", 4601).is_none());
    assert!(store.validate_session_at("id-2", 1000).is_none());
}

#[test]
fn created_session_is_valid_now() {
    let mut store = SessionStorage::new();
    let id = store.create_session(s("u1"));
    assert_eq!(id.len(), 36);
    let session = store.validate_session(&id).unwrap();
    assert_eq!(session.user_id, s("u1"));
    let expires_at = session.expires_at;
    assert!(store.validate_session_at(&id, expires_at - 1).is_some());
    assert!(store.validate_session_at(&id, expires_at).is_none());
    assert_eq!(store.len(), 1);
}

#[test]
fn created_sessions_have_different_ids() {
    let mut store = SessionStorage::new();
    let a = store.create_session(s("u1"));
    let b = store.create_session(s("u1"));
    assert_ne!(a, b);
    assert_eq!(store.len(), 2);
}

#[test]
fn expiry_is_about_an_hour_from_now() {
    let before = std::time::SystemTime::now()
        .duration_since(std::time::UNIX_EPOCH)
        .unwrap()
        .as_secs() as i64;
    let mut store = SessionStorage::new();
    let id = store.create_session(s("u1"));
    let expires_at = store.validate_session(&id).unwrap().expires_at;
    assert!(expires_at >= before + 3600);
    assert!(expires_at <= before + 3600 + 60);
}

#[test]
fn create_under_a_present_id_replaces() {
    let mut store = SessionStorage::new();
    store.create_session_at(s("id"), s("u1"), 0);
    store.create_session_at(s("id"), s("u2"), 10);
    assert_eq!(store.len(), 1);
    let session = store.validate_session_at("id", 0).unwrap();
    assert_eq!(session.user_id, s("u2"));
    assert_eq!(session.expires_at, 3610);
}

#[test]
fn refresh_of_an_unknown_id_is_none() {
    let mut store = SessionStorage::new();
    store.create_session_at(s("id-1"), s("u1"), 0);
    assert_eq!(store.refresh_session_at("other", s("id-2"), 0), None);
    assert_eq!(store.refresh_session("other"), None);
    assert_eq!(store.len(), 1);
}

#[test]
fn refresh_gives_a_new_id_and_keeps_the_old() {
    let mut store = SessionStorage::new();
    store.create_session_at(s("id-1"), s("u1"), 0);
    let new_id = store.refresh_session_at("id-1", s("id-2"), 100);
    assert_eq!(new_id, Some(s("id-2")));
    assert_eq!(store.len(), 2);
    let old = store.validate_session_at("id-1", 100).unwrap();
    assert_eq!(old.user_id, s("u1"));
    assert_eq!(old.expires_at, 3600);
    let new = store.validate_session_at("id-2", 100).unwrap();
    assert_eq!(new.user_id, s("u1"));
    assert_eq!(new.expires_at, 3700);
}

#[test]
fn refresh_with_a_random_id() {
    let mut store = SessionStorage::new();
    let id = store.create_session(s("u1"));
    let new_id = store.refresh_session(&id).unwrap();
    assert_ne!(new_id, id);
    assert_eq!(new_id.len(), 36);
    assert_eq!(store.validate_session(&id).unwrap().user_id, s("u1"));
    assert_eq!(store.validate_session(&new_id).unwrap().user_id, s("u1"));
    assert_eq!(store.len(), 2);
}

#[test]
fn refresh_does_not_ask_whether_the_session_expired() {
    let mut store = SessionStorage::new();
    store.create_session_at(s("id-1"), s("u1"), 0);
    assert!(store.validate_session_at("id-1", 5000).is_none());
    let new_id = store.refresh_session_at("id-1", s("id-2"), 5000);
    assert_eq!(new_id, Some(s("id-2")));
    assert!(store.validate_session_at("id-1", 5000).is_none());
    assert!(store.validate_session_at("id-2", 5000).is_some());
    assert_eq!(store.validate_session_at("id-2", 5000).unwrap().expires_at, 8600);
}

#[test]
fn cleanup_removes_what_expired() {
    let mut store = SessionStorage::new();
    store.create_session_at(s("a"), s("u1"), 0);
    store.create_session_at(s("b"), s("u2"), 100);
    store.create_session_at(s("c"), s("u3"), 200);
    store.cleanup_sessions_at(3700);
    assert_eq!(store.len(), 1);
    assert!(store.validate_session_at("a", 0).is_none());
    assert!(store.validate_session_at("b", 0).is_none());
    assert_eq!(store.validate_session_at("c", 0).unwrap().user_id, s("u3"));
}

#[test]
fn cleanup_removes_a_session_at_its_expiry() {
    let mut store = SessionStorage::new();
    store.create_session_at(s("a"), s("u1"), 0);
    store.cleanup_sessions_at(3599);
    assert_eq!(store.len(), 1);
    store.cleanup_sessions_at(3600);
    assert_eq!(store.len(), 0);
}

#[test]
fn cleanup_now_keeps_fresh_sessions() {
    let mut store = SessionStorage::new();
    let id = store.create_session(s("u1"));
    store.create_session_at(s("old"), s("u2"), 0);
    store.cleanup_sessions();
    assert_eq!(store.len(), 1);
    assert!(store.validate_session(&id).is_some());
    assert!(store.validate_session_at("old", 0).is_none());
}

#[test]
fn clone_has_the_same_sessions() {
    let mut store = SessionStorage::new();
    store.create_session_at(s("a"), s("u1"), 0);
    let copy = store.clone();
    store.cleanup_sessions_at(4000);
    assert_eq!(copy.len(), 1);
    assert_eq!(copy.validate_session_at("a", 0).unwrap().user_id, s("u1"));
}
