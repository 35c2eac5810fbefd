use chat_api::auth::authorize;
use chat_api::auth::extract_bearer;
use chat_api::auth::AuthError;
use chat_api::auth::Claims;
use chat_api::auth::CreateUser;
use chat_api::auth::Keys;
use chat_api::auth::User;
use chat_api::db_helper::check_user;
use chat_api::db_helper::create_user;
use chat_api::db_helper::find_by_username;
use chat_api::db_helper::get_create_users;
use chat_api::db_helper::initialize_db;
use chat_api::db_helper::DbHelperError;
use chat_api::db_helper::Login;
use chat_api::db_helper::UserStore;
use chat_api::messages::create_message;
use chat_api::messages::create_table_messages;
use chat_api::messages::delete_message;
use chat_api::messages::get_message_by_id;
use chat_api::messages::get_message_threads;
use chat_api::messages::get_messages_thread;
use chat_api::messages::CreateMessage;
use chat_api::messages::Message;
use chat_api::messages::MessageStore;
use chat_api::routes::login;
use chat_api::routes::register;
use chat_api::routes::send_message;
use chat_api::routes::test_auth;
use chat_api::token::issue_token;
use chat_api::token::parse_u64;
use chat_api::token::u64_to_dec_string;
use chat_api::token::validate_token;
use chat_api::token::current_timestamp;
use chat_api::token::MAX_TIMESTAMP;

fn keys() -> Keys {
    Keys::new(b"SECRET-REDACTED")
}

fn new_user(store: &mut UserStore, username: &str, password: &str) -> i64 {
    register(
        CreateUser {
            username: username.to_string(),
            name: username.to_string(),
            password: password.to_string(),
        },
        store,
    )
    .expect("registration should succeed")
}

fn send(store: &mut MessageStore, sender: i64, receiver: i64, text: &str, now: i64) -> Message {
    let claims = Claims { sub: sender, exp: 0 };
    send_message(
        store,
        &claims,
        CreateMessage { text: text.to_string(), receiver_id: receiver },
        now,
    )
    .expect("sending should succeed")
}

#[test]
fn register_then_login_matches() {
    let mut store = UserStore::new();
    let id = new_user(&mut store, "alice", "pw1");
    assert_eq!(id, 1);
    let body = login(
        &Login { username: "alice".to_string(), password: "pw1".to_string() },
        &store,
        &keys(),
        1_000,
    )
    .expect("login should succeed");
    assert_eq!(body.token_type, "Bearer");
    assert!(!body.access_token.is_empty());
}

#[test]
fn wrong_password_and_unknown_user_rejected_alike() {
    let mut store = UserStore::new();
    new_user(&mut store, "alice", "pw1");
    let wrong_password = login(
        &Login { username: "alice".to_string(), password: "pw2".to_string() },
        &store,
        &keys(),
        1_000,
    );
    let unknown_user = login(
        &Login { username: "mallory".to_string(), password: "pw1".to_string() },
        &store,
        &keys(),
        1_000,
    );
    assert_eq!(wrong_password.err(), Some(AuthError::WrongCredentials));
    assert_eq!(unknown_user.err(), Some(AuthError::WrongCredentials));
}

#[test]
fn duplicate_username_rejected() {
    let mut store = UserStore::new();
    new_user(&mut store, "alice", "pw1");
    let second = register(
        CreateUser {
            username: "alice".to_string(),
            name: "other".to_string(),
            password: "pw2".to_string(),
        },
        &mut store,
    );
    assert_eq!(second, Err(DbHelperError::Storage));
    assert_eq!(store.users.len(), 1);
}

#[test]
fn password_hash_is_salted_but_verifiable() {
    let user = User::from_create(CreateUser {
        username: "alice".to_string(),
        name: "Alice".to_string(),
        password: "pw1".to_string(),
    })
    .expect("hashing should succeed");
    let hash = user.get_password_hash();
    assert_ne!(hash, "pw1");
    assert!(hash.starts_with("$2"));
}

#[test]
fn check_user_returns_matching_row() {
    let mut store = UserStore::new();
    let id = new_user(&mut store, "alice", "pw1");
    let found = check_user(
        &Login { username: "alice".to_string(), password: "pw1".to_string() },
        &store,
    )
    .expect("credentials should match");
    assert_eq!(found.id, id);
    assert_eq!(found.username, "alice");
    let missed = check_user(
        &Login { username: "alice".to_string(), password: "bad".to_string() },
        &store,
    );
    assert!(missed.is_none());
}

#[test]
fn find_by_username_looks_up_one_row() {
    let mut store = UserStore::new();
    new_user(&mut store, "alice", "pw1");
    assert!(find_by_username(&store, "alice").is_some());
    assert!(find_by_username(&store, "bob").is_none());
}

#[test]
fn seeding_fills_an_empty_store_once() {
    let seeds = get_create_users();
    assert_eq!(seeds.len(), 4);
    assert_eq!(seeds[0].username, "test");
    assert_eq!(seeds[3].username, "test3");
    let mut store = UserStore::new();
    initialize_db(&mut store).expect("seeding should succeed");
    assert_eq!(store.users.len(), 4);
    let relogin = check_user(
        &Login { username: "test".to_string(), password: "test".to_string() },
        &store,
    );
    assert!(relogin.is_some());
    initialize_db(&mut store).expect("second run should be a no-op");
    assert_eq!(store.users.len(), 4);
}

#[test]
fn token_roundtrip_carries_subject_and_expiry() {
    let keys = keys();
    let token = issue_token(&keys, 42, 1_000).expect("issuing should succeed");
    let claims = validate_token(keys.secret_bytes(), &token, 1_000)
        .expect("a fresh token should validate");
    assert_eq!(claims.sub, 42);
    assert_eq!(claims.exp, 1_000 + 86_400);
}

#[test]
fn expired_token_rejected() {
    let keys = keys();
    let token = issue_token(&keys, 42, 1_000).expect("issuing should succeed");
    let at_expiry = validate_token(keys.secret_bytes(), &token, 1_000 + 86_400);
    assert_eq!(at_expiry, Err(AuthError::InvalidToken));
}

#[test]
fn tampered_token_rejected() {
    let keys = keys();
    let token = issue_token(&keys, 42, 1_000).expect("issuing should succeed");
    let mut tampered = token.clone();
    tampered.push('x');
    assert_eq!(
        validate_token(keys.secret_bytes(), &tampered, 1_000),
        Err(AuthError::InvalidToken)
    );
    let resubjected = format!("7{}", &token[1..]);
    assert_eq!(
        validate_token(keys.secret_bytes(), &resubjected, 1_000),
        Err(AuthError::InvalidToken)
    );
    let other_keys = Keys::new(b"another secret");
    assert_eq!(
        validate_token(other_keys.secret_bytes(), &token, 1_000),
        Err(AuthError::InvalidToken)
    );
}

#[test]
fn malformed_tokens_rejected() {
    let keys = keys();
    for bad in ["", "no dots here", "1.2", "a.b.c", "1..sig", "12345678901234567890.1.sig"] {
        assert_eq!(
            validate_token(keys.secret_bytes(), bad, 0),
            Err(AuthError::InvalidToken),
            "token {:?} should be rejected",
            bad
        );
    }
}

#[test]
fn bearer_guard_accepts_only_wellformed_headers() {
    let keys = keys();
    let token = issue_token(&keys, 7, 1_000).expect("issuing should succeed");
    let header = format!("Bearer {}", token);
    let claims = authorize(&keys, Some(&header), 1_000).expect("header should pass the guard");
    assert_eq!(claims.sub, 7);
    assert_eq!(authorize(&keys, None, 1_000), Err(AuthError::InvalidToken));
    let wrong_scheme = format!("Token {}", token);
    assert_eq!(
        authorize(&keys, Some(&wrong_scheme), 1_000),
        Err(AuthError::InvalidToken)
    );
    assert_eq!(
        authorize(&keys, Some(&token), 1_000),
        Err(AuthError::InvalidToken)
    );
}

#[test]
fn extract_bearer_strips_the_scheme() {
    assert_eq!(extract_bearer("Bearer abc"), Some("abc"));
    assert_eq!(extract_bearer("bearer abc"), None);
    assert_eq!(extract_bearer("Bearer"), None);
    assert_eq!(extract_bearer("Bearer "), Some(""));
}

#[test]
fn decimal_rendering_and_parsing_roundtrip() {
    assert_eq!(u64_to_dec_string(0), "0");
    assert_eq!(u64_to_dec_string(86_400), "86400");
    assert_eq!(parse_u64("0"), Some(0));
    assert_eq!(parse_u64("86400"), Some(86_400));
    assert_eq!(parse_u64(""), None);
    assert_eq!(parse_u64("12a"), None);
    assert_eq!(parse_u64("12345678901234567890"), None);
}

#[test]
fn greeting_names_the_subject() {
    let claims = Claims { sub: 1, exp: 0 };
    assert_eq!(test_auth(&claims), "Hello from 1");
}

#[test]
fn created_message_is_fully_populated() {
    let mut store = create_table_messages();
    let m = send(&mut store, 1, 2, "hi", 50);
    assert_eq!(m.id, 1);
    assert_eq!(m.sender_id, 1);
    assert_eq!(m.receiver_id, 2);
    assert_eq!(m.text, "hi");
    assert_eq!(m.created_at, 50);
    assert!(!m.is_read);
    let found = get_message_by_id(&store, 1).expect("the row should be stored");
    assert_eq!(found.text, "hi");
    assert!(get_message_by_id(&store, 99).is_none());
}

#[test]
fn delete_only_removes_own_messages() {
    let mut store = create_table_messages();
    let m = send(&mut store, 1, 2, "hi", 50);
    let by_receiver = delete_message(&mut store, m.id, 2);
    assert_eq!(by_receiver, 0);
    assert!(get_message_by_id(&store, m.id).is_some());
    let by_stranger = delete_message(&mut store, m.id, 3);
    assert_eq!(by_stranger, 0);
    assert!(get_message_by_id(&store, m.id).is_some());
    let by_sender = delete_message(&mut store, m.id, 1);
    assert_eq!(by_sender, 1);
    assert!(get_message_by_id(&store, m.id).is_none());
    let again = delete_message(&mut store, m.id, 1);
    assert_eq!(again, 0);
}

#[test]
fn thread_between_is_sorted_and_direction_independent() {
    let mut store = create_table_messages();
    send(&mut store, 1, 2, "late", 90);
    send(&mut store, 2, 1, "early", 10);
    send(&mut store, 1, 3, "other thread", 20);
    send(&mut store, 1, 2, "tie", 10);
    let forward = get_messages_thread(&store, (1, 2));
    let backward = get_messages_thread(&store, (2, 1));
    assert_eq!(forward.len(), 3);
    let forward_ids: Vec<i64> = forward.iter().map(|m| m.id).collect();
    let backward_ids: Vec<i64> = backward.iter().map(|m| m.id).collect();
    assert_eq!(forward_ids, backward_ids);
    // chronological order, ids breaking the created_at tie
    assert_eq!(forward_ids, vec![2, 4, 1]);
    let times: Vec<i64> = forward.iter().map(|m| m.created_at).collect();
    assert_eq!(times, vec![10, 10, 90]);
}

#[test]
fn thread_grouping_is_order_independent() {
    let mut store = create_table_messages();
    let a_to_b = send(&mut store, 1, 2, "a to b", 10);
    let b_to_a = send(&mut store, 2, 1, "b to a", 20);
    let threads_of_a = get_message_threads(&store, 1);
    let threads_of_b = get_message_threads(&store, 2);
    assert_eq!(threads_of_a.len(), 1, "one thread, not two one-sided ones");
    assert_eq!(threads_of_b.len(), 1, "one thread, not two one-sided ones");
    assert_eq!(threads_of_a[0].id, threads_of_b[0].id);
    assert_eq!(threads_of_a[0].id, b_to_a.id, "the latest message represents the thread");
    assert_ne!(threads_of_a[0].id, a_to_b.id);
}

#[test]
fn threads_list_one_representative_per_counterpart() {
    let mut store = create_table_messages();
    send(&mut store, 1, 2, "to bob", 10);
    send(&mut store, 3, 1, "from carol", 20);
    send(&mut store, 2, 1, "bob answers", 30);
    let threads = get_message_threads(&store, 1);
    assert_eq!(threads.len(), 2);
    let threads_empty = get_message_threads(&store, 9);
    assert!(threads_empty.is_empty());
}

#[test]
fn end_to_end_exchange() {
    let keys = keys();
    let mut users = UserStore::new();
    let mut messages = create_table_messages();
    let alice = new_user(&mut users, "alice", "pw1");
    let bob = new_user(&mut users, "bob", "pw2");

    let body = login(
        &Login { username: "alice".to_string(), password: "pw1".to_string() },
        &users,
        &keys,
        1_000,
    )
    .expect("login should succeed");
    let header = format!("Bearer {}", body.access_token);
    let claims = authorize(&keys, Some(&header), 1_500).expect("token should pass the guard");
    assert_eq!(claims.sub, alice);

    let sent = send_message(
        &mut messages,
        &claims,
        CreateMessage { text: "hi".to_string(), receiver_id: bob },
        2_000,
    )
    .expect("sending should succeed");
    assert!(sent.id > 0);
    assert_eq!(sent.sender_id, alice);

    let dialogs_alice = get_message_threads(&messages, alice);
    let dialogs_bob = get_message_threads(&messages, bob);
    assert_eq!(dialogs_alice.len(), 1);
    assert_eq!(dialogs_bob.len(), 1);
    assert_eq!(dialogs_alice[0].id, sent.id);
    assert_eq!(dialogs_bob[0].id, sent.id);
}

#[test]
fn clock_reading_is_clamped() {
    let now = current_timestamp();
    assert!(now <= MAX_TIMESTAMP);
}

#[test]
fn nineteen_digit_numbers_roundtrip() {
    let big: u64 = 9_999_999_999_999_999_999;
    let rendered = u64_to_dec_string(big);
    assert_eq!(rendered.len(), 19);
    assert_eq!(parse_u64(&rendered), Some(big));
}
