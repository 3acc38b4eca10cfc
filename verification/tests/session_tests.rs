use localhost::session::{id_bytes_from_time, session_id_from_bytes, SessionStore};

/// Random bytes for a new session id, all equal to `b`.
fn id_bytes(b: u8) -> [u8; 16] {
    [b; 16]
}

/// The session id made of [`id_bytes`]`(b)`.
fn id_of(b: u8) -> String {
    format!("{:02x}", b).repeat(16)
}

#[test]
fn new_client_gets_fresh_session() {
    let mut store = SessionStore::new();
    let (id, is_new) = store.resolve(None, &id_bytes(0x0f), 10);
    assert_eq!(id, id_of(0x0f));
    assert!(is_new);
}

#[test]
fn fresh_session_id_is_hex_of_the_random_bytes() {
    let mut store = SessionStore::new();
    let bytes: [u8; 16] = [0, 1, 2, 3, 4, 5, 6, 7, 8, 9, 10, 11, 12, 13, 0xfe, 0xff];
    let (id, is_new) = store.resolve(None, &bytes, 0);
    assert_eq!(id, "000102030405060708090a0b0c0dfeff");
    assert_eq!(id.len(), 32);
    assert!(id.chars().all(|c| c.is_ascii_hexdigit() && !c.is_ascii_uppercase()));
    assert!(is_new);
}

#[test]
fn known_session_is_kept() {
    let mut store = SessionStore::new();
    let (id, _) = store.resolve(None, &id_bytes(1), 10);
    let (again, is_new) = store.resolve(Some(id.as_str()), &id_bytes(2), 20);
    assert_eq!(again, id_of(1));
    assert!(!is_new);
}

#[test]
fn unknown_cookie_gets_fresh_session() {
    let mut store = SessionStore::new();
    let (id, is_new) = store.resolve(Some("forged"), &id_bytes(0xaa), 0);
    assert_eq!(id, id_of(0xaa));
    assert!(is_new);
}

#[test]
fn visits_count_up() {
    let mut store = SessionStore::new();
    let (id, _) = store.resolve(None, &id_bytes(3), 0);
    assert_eq!(store.record_visit(&id, 1), 1);
    assert_eq!(store.record_visit(&id, 2), 2);
    assert_eq!(store.record_visit(&id, 3), 3);
}

#[test]
fn visits_of_other_sessions_do_not_count() {
    let mut store = SessionStore::new();
    assert_eq!(store.record_visit("a", 1), 1);
    assert_eq!(store.record_visit("b", 2), 1);
    assert_eq!(store.record_visit("b", 3), 2);
    assert_eq!(store.record_visit("a", 4), 2);
}

#[test]
fn visit_of_unknown_session_creates_it() {
    let mut store = SessionStore::new();
    assert_eq!(store.record_visit("ghost", 5), 1);
    let (id, is_new) = store.resolve(Some("ghost"), &id_bytes(4), 6);
    assert_eq!(id, "ghost");
    assert!(!is_new);
}

#[test]
fn cleanup_drops_idle_sessions() {
    let mut store = SessionStore::new();
    let (old, _) = store.resolve(None, &id_bytes(0x10), 0);
    let (recent, _) = store.resolve(None, &id_bytes(0x20), 900);
    store.cleanup(1000, 500);
    let (a, a_new) = store.resolve(Some(old.as_str()), &id_bytes(0x30), 1000);
    assert_eq!(a, id_of(0x30));
    assert!(a_new);
    let (b, b_new) = store.resolve(Some(recent.as_str()), &id_bytes(0x40), 1000);
    assert_eq!(b, id_of(0x20));
    assert!(!b_new);
}

#[test]
fn cleanup_keeps_session_exactly_below_max_age() {
    let mut store = SessionStore::new();
    let (edge, _) = store.resolve(None, &id_bytes(0x50), 501);
    let (gone, _) = store.resolve(None, &id_bytes(0x60), 500);
    store.cleanup(1000, 500);
    assert!(!store.resolve(Some(edge.as_str()), &id_bytes(0x70), 1000).1);
    assert!(store.resolve(Some(gone.as_str()), &id_bytes(0x80), 1000).1);
}

#[test]
fn session_ids_are_hex() {
    assert_eq!(session_id_from_bytes(&[0x00, 0xab, 0x10, 0xff]), "00ab10ff");
    assert_eq!(session_id_from_bytes(&[0u8; 16]).len(), 32);
}

#[test]
fn time_bytes_are_little_endian() {
    let b = id_bytes_from_time(0x0102_0304);
    assert_eq!(b.len(), 16);
    assert_eq!(&b[..5], &[4, 3, 2, 1, 0]);
}
