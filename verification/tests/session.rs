use lib::framing::{parse_field, parse_length};
use lib::session::{
    command_has_value, format_response, handle_auth, handle_command, handle_request_step, Action,
    ConnectionState, Request, Response, Step,
};
use lib::store::Store;

fn users() -> Store {
    let mut users = Store::new();
    users.insert("admin".to_string(), "root".to_string());
    users
}

/// Feeds `input` and runs steps until the conversation waits; returns the
/// replies, or the error message where the request is malformed.
fn run(
    state: &mut ConnectionState,
    buffer: &mut Vec<u8>,
    input: &[u8],
    store: &mut Store,
    users: &Store,
) -> Result<Vec<String>, String> {
    buffer.extend_from_slice(input);
    let mut replies = Vec::new();
    loop {
        match handle_request_step(state, buffer, store, users) {
            Action::Continue => {}
            Action::NeedMore => return Ok(replies),
            Action::Reply(r) => replies.push(r),
            Action::Fail(m) => return Err(m),
            Action::Abort => return Err("abort".to_string()),
        }
    }
}

fn request(text: &str) -> Vec<u8> {
    text.as_bytes().to_vec()
}

#[test]
fn format_response_error() {
    assert_eq!(
        format_response(Response::Error("authentication required".to_string())),
        "5$ERROR$23$authentication required$"
    );
}

#[test]
fn format_response_success() {
    assert_eq!(format_response(Response::Success("RONNIE".to_string())), "8$RESPONSE$6$RONNIE$");
    assert_eq!(format_response(Response::Success(String::new())), "8$RESPONSE$0$$");
}

#[test]
fn format_response_counts_bytes() {
    assert_eq!(format_response(Response::Success("héllo".to_string())), "8$RESPONSE$6$héllo$");
}

#[test]
fn response_reads_back_with_request_framing() {
    let reply = format_response(Response::Success("héllo$x".to_string()));
    let mut buffer = reply.into_bytes();
    let kind_len = parse_length(&mut buffer).unwrap().unwrap();
    assert_eq!(parse_field(&mut buffer, kind_len), Ok(Some("RESPONSE".to_string())));
    let value_len = parse_length(&mut buffer).unwrap().unwrap();
    assert_eq!(parse_field(&mut buffer, value_len), Ok(Some("héllo$x".to_string())));
    assert!(buffer.is_empty());
}

#[test]
fn command_has_value_for_auth_and_set() {
    assert!(command_has_value(Some("AUTH")));
    assert!(command_has_value(Some("SET")));
    assert!(!command_has_value(Some("GET")));
    assert!(!command_has_value(Some("DELETE")));
    assert!(!command_has_value(Some("set")));
    assert!(!command_has_value(None));
}

#[test]
fn new_state_and_reset() {
    let mut state = ConnectionState::new();
    assert!(matches!(state.step, Step::CommandLength));
    assert!(!state.authenticated);
    state.step = Step::KeyLength;
    state.command = Some("GET".to_string());
    state.key = Some("K".to_string());
    state.authenticated = true;
    state.reset_request();
    assert!(matches!(state.step, Step::CommandLength));
    assert_eq!(state.command, None);
    assert_eq!(state.key, None);
    assert!(state.authenticated);
}

#[test]
fn set_requires_authentication() {
    let users = users();
    let mut store = Store::new();
    let mut state = ConnectionState::new();
    let mut buffer = Vec::new();
    let replies = run(&mut state, &mut buffer, b"3$SET$4$NAME$6$RONNIE$", &mut store, &users);
    assert_eq!(replies, Ok(vec!["5$ERROR$23$authentication required$".to_string()]));
    assert_eq!(store.get(&"NAME".to_string()), None);
    assert!(buffer.is_empty());
}

#[test]
fn auth_set_get_delete_session() {
    let users = users();
    let mut store = Store::new();
    let mut state = ConnectionState::new();
    let mut buffer = Vec::new();
    let input = request("4$AUTH$5$admin$4$root$3$SET$4$NAME$6$RONNIE$3$GET$4$NAME$0$$6$DELETE$4$NAME$0$$3$GET$4$NAME$0$$");
    let replies = run(&mut state, &mut buffer, &input, &mut store, &users).unwrap();
    assert_eq!(
        replies,
        vec![
            "8$RESPONSE$2$OK$".to_string(),
            "8$RESPONSE$0$$".to_string(),
            "8$RESPONSE$6$RONNIE$".to_string(),
            "8$RESPONSE$0$$".to_string(),
            "8$RESPONSE$0$$".to_string(),
        ]
    );
    assert!(state.authenticated);
    assert_eq!(store.get(&"NAME".to_string()), None);
}

#[test]
fn commands_are_case_insensitive() {
    let users = users();
    let mut store = Store::new();
    let mut state = ConnectionState::new();
    let mut buffer = Vec::new();
    let input = request("4$auth$5$admin$4$root$3$sEt$1$k$1$v$3$get$1$k$0$$");
    let replies = run(&mut state, &mut buffer, &input, &mut store, &users).unwrap();
    assert_eq!(
        replies,
        vec![
            "8$RESPONSE$2$OK$".to_string(),
            "8$RESPONSE$0$$".to_string(),
            "8$RESPONSE$1$v$".to_string(),
        ]
    );
}

#[test]
fn wrong_password_and_unknown_user_are_refused() {
    let users = users();
    let mut store = Store::new();
    let mut state = ConnectionState::new();
    let mut buffer = Vec::new();
    let input = request("4$AUTH$5$admin$5$wrong$4$AUTH$6$nobody$4$root$");
    let replies = run(&mut state, &mut buffer, &input, &mut store, &users).unwrap();
    assert_eq!(
        replies,
        vec![
            "5$ERROR$19$invalid credentials$".to_string(),
            "5$ERROR$19$invalid credentials$".to_string(),
        ]
    );
    assert!(!state.authenticated);
}

#[test]
fn unknown_command_is_named_in_error() {
    let users = users();
    let mut store = Store::new();
    let mut state = ConnectionState::new();
    let mut buffer = Vec::new();
    let replies = run(&mut state, &mut buffer, b"4$ping$1$k$0$$", &mut store, &users).unwrap();
    assert_eq!(replies, vec!["5$ERROR$20$invalid command PING$".to_string()]);
}

#[test]
fn get_of_missing_key_is_empty() {
    let users = users();
    let mut store = Store::new();
    let mut state = ConnectionState::new();
    let mut buffer = Vec::new();
    let input = request("4$AUTH$5$admin$4$root$3$GET$7$MISSING$0$$");
    let replies = run(&mut state, &mut buffer, &input, &mut store, &users).unwrap();
    assert_eq!(replies[1], "8$RESPONSE$0$$");
}

#[test]
fn request_split_across_reads() {
    let users = users();
    let mut store = Store::new();
    let mut state = ConnectionState::new();
    let mut buffer = Vec::new();
    let input = request("4$AUTH$5$admin$4$root$3$SET$4$NAME$6$RONNIE$3$GET$4$NAME$0$$");
    let mut replies = Vec::new();
    for chunk in input.chunks(3) {
        replies.extend(run(&mut state, &mut buffer, chunk, &mut store, &users).unwrap());
    }
    assert_eq!(
        replies,
        vec![
            "8$RESPONSE$2$OK$".to_string(),
            "8$RESPONSE$0$$".to_string(),
            "8$RESPONSE$6$RONNIE$".to_string(),
        ]
    );
}

#[test]
fn partial_input_waits_and_changes_nothing() {
    let users = users();
    let mut store = Store::new();
    let mut state = ConnectionState::new();
    let mut buffer = b"12".to_vec();
    assert!(matches!(
        handle_request_step(&mut state, &mut buffer, &mut store, &users),
        Action::NeedMore
    ));
    assert_eq!(buffer, b"12".to_vec());
    assert!(matches!(state.step, Step::CommandLength));
}

#[test]
fn malformed_length_fails() {
    let users = users();
    let mut store = Store::new();
    let mut state = ConnectionState::new();
    let mut buffer = Vec::new();
    let result = run(&mut state, &mut buffer, b"x$GET$", &mut store, &users);
    assert_eq!(result, Err("the length must be numbers only. ".to_string()));
}

#[test]
fn missing_field_delimiter_fails() {
    let users = users();
    let mut store = Store::new();
    let mut state = ConnectionState::new();
    let mut buffer = Vec::new();
    let result = run(&mut state, &mut buffer, b"2$GET$", &mut store, &users);
    assert_eq!(result, Err("invalid command!".to_string()));
}

#[test]
fn maximal_field_length_aborts() {
    let users = users();
    let mut store = Store::new();
    let mut state = ConnectionState::new();
    let mut buffer = b"18446744073709551615$GET$".to_vec();
    assert!(matches!(
        handle_request_step(&mut state, &mut buffer, &mut store, &users),
        Action::Continue
    ));
    assert!(matches!(state.step, Step::Command { len: usize::MAX }));
    assert!(matches!(
        handle_request_step(&mut state, &mut buffer, &mut store, &users),
        Action::Abort
    ));
    assert_eq!(buffer, b"GET$".to_vec());
}

#[test]
fn handle_command_set_and_get() {
    let users = users();
    let mut store = Store::new();
    let mut state = ConnectionState::new();
    state.authenticated = true;
    let reply = handle_command(
        &mut state,
        Request { command: "SET".to_string(), key: "k".to_string(), value: Some("v".to_string()) },
        &mut store,
        &users,
    );
    assert_eq!(reply, "8$RESPONSE$0$$");
    let reply = handle_command(
        &mut state,
        Request { command: "GET".to_string(), key: "k".to_string(), value: None },
        &mut store,
        &users,
    );
    assert_eq!(reply, "8$RESPONSE$1$v$");
}

#[test]
fn handle_command_set_without_value_stores_empty() {
    let users = users();
    let mut store = Store::new();
    let mut state = ConnectionState::new();
    state.authenticated = true;
    let reply = handle_command(
        &mut state,
        Request { command: "SET".to_string(), key: "k".to_string(), value: None },
        &mut store,
        &users,
    );
    assert_eq!(reply, "8$RESPONSE$0$$");
    assert_eq!(store.get(&"k".to_string()), Some(String::new()));
}

#[test]
fn handle_command_unauthenticated_delete_keeps_table() {
    let users = users();
    let mut store = Store::new();
    store.insert("k".to_string(), "v".to_string());
    let mut state = ConnectionState::new();
    let reply = handle_command(
        &mut state,
        Request { command: "DELETE".to_string(), key: "k".to_string(), value: None },
        &mut store,
        &users,
    );
    assert_eq!(reply, "5$ERROR$23$authentication required$");
    assert_eq!(store.get(&"k".to_string()), Some("v".to_string()));
}

#[test]
fn handle_auth_needs_password() {
    let users = users();
    let mut state = ConnectionState::new();
    let reply = handle_auth(
        &mut state,
        &Request { command: "AUTH".to_string(), key: "admin".to_string(), value: None },
        &users,
    );
    assert_eq!(reply, "5$ERROR$20$password is required$");
    assert!(!state.authenticated);
}

#[test]
fn handle_auth_accepts_stored_password() {
    let users = users();
    let mut state = ConnectionState::new();
    let reply = handle_auth(
        &mut state,
        &Request {
            command: "AUTH".to_string(),
            key: "admin".to_string(),
            value: Some("root".to_string()),
        },
        &users,
    );
    assert_eq!(reply, "8$RESPONSE$2$OK$");
    assert!(state.authenticated);
}

#[test]
fn failed_auth_keeps_earlier_authentication() {
    let users = users();
    let mut state = ConnectionState::new();
    state.authenticated = true;
    let reply = handle_auth(
        &mut state,
        &Request {
            command: "AUTH".to_string(),
            key: "admin".to_string(),
            value: Some("nope".to_string()),
        },
        &users,
    );
    assert_eq!(reply, "5$ERROR$19$invalid credentials$");
    assert!(state.authenticated);
}

#[test]
fn get_reads_and_ignores_its_value() {
    let users = users();
    let mut store = Store::new();
    store.insert("NAME".to_string(), "RONNIE".to_string());
    let mut state = ConnectionState::new();
    state.authenticated = true;
    let mut buffer = Vec::new();
    let replies = run(&mut state, &mut buffer, b"3$GET$4$NAME$6$RONNIE$", &mut store, &users).unwrap();
    assert_eq!(replies, vec!["8$RESPONSE$6$RONNIE$".to_string()]);
    assert!(buffer.is_empty());
    assert!(matches!(state.step, Step::CommandLength));
    assert_eq!(state.command, None);
    assert_eq!(state.key, None);
}

#[test]
fn get_waits_for_its_value() {
    let users = users();
    let mut store = Store::new();
    store.insert("NAME".to_string(), "RONNIE".to_string());
    let mut state = ConnectionState::new();
    state.authenticated = true;
    let mut buffer = Vec::new();
    let replies = run(&mut state, &mut buffer, b"3$GET$4$NAME$", &mut store, &users).unwrap();
    assert!(replies.is_empty());
    assert!(matches!(state.step, Step::ValueLength));
    let replies = run(&mut state, &mut buffer, b"3$abc$", &mut store, &users).unwrap();
    assert_eq!(replies, vec!["8$RESPONSE$6$RONNIE$".to_string()]);
}

#[test]
fn delete_ignores_its_value() {
    let users = users();
    let mut store = Store::new();
    store.insert("k".to_string(), "v".to_string());
    let mut state = ConnectionState::new();
    state.authenticated = true;
    let mut buffer = Vec::new();
    let replies = run(&mut state, &mut buffer, b"6$DELETE$1$k$3$xyz$", &mut store, &users).unwrap();
    assert_eq!(replies, vec!["8$RESPONSE$0$$".to_string()]);
    assert_eq!(store.get(&"k".to_string()), None);
}

#[test]
fn unauthenticated_conversation_leaves_table() {
    let users = users();
    let mut store = Store::new();
    store.insert("k".to_string(), "v".to_string());
    let mut state = ConnectionState::new();
    let mut buffer = Vec::new();
    let input = request("3$GET$1$k$0$$3$SET$1$k$1$w$6$DELETE$1$k$0$$4$AUTH$5$admin$3$bad$");
    let replies = run(&mut state, &mut buffer, &input, &mut store, &users).unwrap();
    assert_eq!(
        replies,
        vec![
            "5$ERROR$23$authentication required$".to_string(),
            "5$ERROR$23$authentication required$".to_string(),
            "5$ERROR$23$authentication required$".to_string(),
            "5$ERROR$19$invalid credentials$".to_string(),
        ]
    );
    assert!(!state.authenticated);
    assert_eq!(store.get(&"k".to_string()), Some("v".to_string()));
}
