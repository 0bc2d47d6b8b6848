//! One client's conversation with the cache.
//!
//! A request is `LEN$COMMAND$LEN$KEY$LEN$VALUE$`, for example
//! `3$GET$4$NAME$6$RONNIE$`. Only `AUTH` and `SET` use the value; every other
//! command reads it and ignores it. Each reply is framed the same way:
//! `5$ERROR$LEN$MESSAGE$` or `8$RESPONSE$LEN$VALUE$`.
//!
//! The bytes come in pieces, so the conversation is a state machine:
//! [`handle_request_step`] takes one step on the bytes received so far and says
//! what the caller has to do next.
use vstd::prelude::*;
use vstd::utf8::*;
use crate::framing::{
    field_scan, has_dollar, lemma_first_dollar_exists, length_scan, parse_field, parse_length,
};
use crate::store::Store;
use crate::text::{ascii_upper_text, decimal, format_decimal, same_text, to_ascii_uppercase};

verus! {

/// What the conversation expects next on the wire.
#[derive(Clone, Copy, Debug)]
pub enum Step {
    CommandLength,
    Command { len: usize },
    KeyLength,
    Key { len: usize },
    ValueLength,
    Value { len: usize },
}

/// The state of one client's conversation.
pub struct ConnectionState {
    pub step: Step,
    pub command: Option<String>,
    pub key: Option<String>,
    pub authenticated: bool,
}

/// A complete request.
pub struct Request {
    pub command: String,
    pub key: String,
    pub value: Option<String>,
}

/// A reply before it is framed.
pub enum Response {
    Error(String),
    Success(String),
}

/// What the caller has to do after one step of the conversation.
pub enum Action {
    /// Take the next step on the same bytes.
    Continue,
    /// Wait for more bytes.
    NeedMore,
    /// Send this reply, then take the next step.
    Reply(String),
    /// The request is malformed: answer with this error and end the conversation.
    Fail(String),
    /// A field length of `usize::MAX` cannot be read: drop the conversation
    /// without an answer.
    Abort,
}

/// The model of a [`ConnectionState`].
pub struct SessionView {
    pub step: Step,
    pub command: Option<Seq<char>>,
    pub key: Option<Seq<char>>,
    pub authenticated: bool,
}

/// The model of a [`Request`].
pub struct RequestView {
    pub command: Seq<char>,
    pub key: Seq<char>,
    pub value: Option<Seq<char>>,
}

/// The model of an [`Action`].
pub enum Outcome {
    Continue,
    NeedMore,
    Reply(Seq<char>),
    Fail(Seq<char>),
    Abort,
}

/// The text of an optional string.
pub open spec fn opt_text(o: Option<String>) -> Option<Seq<char>> {
    match o {
        Some(s) => Some(s@),
        None => None,
    }
}

/// The text, or the empty text where there is none.
pub open spec fn text_or_empty(o: Option<Seq<char>>) -> Seq<char> {
    match o {
        Some(s) => s,
        None => Seq::empty(),
    }
}

impl View for ConnectionState {
    type V = SessionView;

    open spec fn view(&self) -> SessionView {
        SessionView {
            step: self.step,
            command: opt_text(self.command),
            key: opt_text(self.key),
            authenticated: self.authenticated,
        }
    }
}

impl View for Request {
    type V = RequestView;

    open spec fn view(&self) -> RequestView {
        RequestView { command: self.command@, key: self.key@, value: opt_text(self.value) }
    }
}

impl View for Action {
    type V = Outcome;

    open spec fn view(&self) -> Outcome {
        match self {
            Action::Continue => Outcome::Continue,
            Action::NeedMore => Outcome::NeedMore,
            Action::Reply(r) => Outcome::Reply(r@),
            Action::Fail(m) => Outcome::Fail(m@),
            Action::Abort => Outcome::Abort,
        }
    }
}

/// The framed text of a reply of the given kind: the kind and the value, each
/// as `LEN$TEXT$` with `LEN` its size in UTF-8 bytes.
pub open spec fn response_text(kind: Seq<char>, value: Seq<char>) -> Seq<char> {
    decimal(encode_utf8(kind).len()) + seq!['$'] + kind + seq!['$'] + decimal(
        encode_utf8(value).len(),
    ) + seq!['$'] + value + seq!['$']
}

/// The framed text of an error reply.
pub open spec fn error_text(message: Seq<char>) -> Seq<char> {
    response_text("ERROR"@, message)
}

/// The framed text of a successful reply.
pub open spec fn success_text(value: Seq<char>) -> Seq<char> {
    response_text("RESPONSE"@, value)
}

impl View for Response {
    type V = Seq<char>;

    open spec fn view(&self) -> Seq<char> {
        match self {
            Response::Error(m) => error_text(m@),
            Response::Success(v) => success_text(v@),
        }
    }
}

/// Commands that use the value sent after their key.
pub open spec fn has_value(command: Option<Seq<char>>) -> bool {
    command == Some("AUTH"@) || command == Some("SET"@)
}

/// The answer to `AUTH` and whether the client is authenticated afterwards.
pub open spec fn auth_outcome(
    authenticated: bool,
    request: RequestView,
    users: Map<Seq<char>, Seq<char>>,
) -> (bool, Seq<char>) {
    match request.value {
        None => (authenticated, error_text("password is required"@)),
        Some(password) => if users.contains_key(request.key) && users[request.key] == password {
            (true, success_text("OK"@))
        } else {
            (authenticated, error_text("invalid credentials"@))
        },
    }
}

/// What a complete request does: whether the client is authenticated
/// afterwards, the table afterwards, and the reply.
pub open spec fn command_outcome(
    authenticated: bool,
    request: RequestView,
    store: Map<Seq<char>, Seq<char>>,
    users: Map<Seq<char>, Seq<char>>,
) -> (bool, Map<Seq<char>, Seq<char>>, Seq<char>) {
    let c = request.command;
    if c == "AUTH"@ {
        let (a, reply) = auth_outcome(authenticated, request, users);
        (a, store, reply)
    } else if (c == "GET"@ || c == "SET"@ || c == "DELETE"@) && !authenticated {
        (authenticated, store, error_text("authentication required"@))
    } else if c == "GET"@ {
        let value = if store.contains_key(request.key) {
            store[request.key]
        } else {
            Seq::empty()
        };
        (authenticated, store, success_text(value))
    } else if c == "SET"@ {
        (
            authenticated,
            store.insert(request.key, text_or_empty(request.value)),
            success_text(Seq::empty()),
        )
    } else if c == "DELETE"@ {
        (authenticated, store.remove(request.key), success_text(Seq::empty()))
    } else {
        (authenticated, store, error_text("invalid command "@ + c))
    }
}

/// The state after a request is answered: ready for the next one, still
/// authenticated as `authenticated` says.
pub open spec fn fresh_request(authenticated: bool) -> SessionView {
    SessionView { step: Step::CommandLength, command: None, key: None, authenticated }
}

/// Answers a complete request: state, bytes left, table and action afterwards.
pub open spec fn finish_request(
    s: SessionView,
    value: Option<Seq<char>>,
    rest: Seq<u8>,
    store: Map<Seq<char>, Seq<char>>,
    users: Map<Seq<char>, Seq<char>>,
) -> (SessionView, Seq<u8>, Map<Seq<char>, Seq<char>>, Outcome) {
    let request = RequestView {
        command: text_or_empty(s.command),
        key: text_or_empty(s.key),
        value,
    };
    let (a, table, reply) = command_outcome(s.authenticated, request, store, users);
    (fresh_request(a), rest, table, Outcome::Reply(reply))
}

/// One step of reading a length prefix; `next` is the step that reads the field.
pub open spec fn length_step(
    s: SessionView,
    buf: Seq<u8>,
    store: Map<Seq<char>, Seq<char>>,
    len_of: spec_fn(usize) -> Step,
) -> (SessionView, Seq<u8>, Map<Seq<char>, Seq<char>>, Outcome) {
    let (r, rest) = length_scan(buf);
    match r {
        Ok(None) => (s, rest, store, Outcome::NeedMore),
        Err(e) => (s, rest, store, Outcome::Fail(e)),
        Ok(Some(len)) => (
            SessionView { step: len_of(len), command: s.command, key: s.key, authenticated: s.authenticated },
            rest,
            store,
            Outcome::Continue,
        ),
    }
}

/// One step of the conversation on the bytes received so far: the state, the
/// bytes left, the table and the action afterwards.
pub open spec fn transition(
    s: SessionView,
    buf: Seq<u8>,
    store: Map<Seq<char>, Seq<char>>,
    users: Map<Seq<char>, Seq<char>>,
) -> (SessionView, Seq<u8>, Map<Seq<char>, Seq<char>>, Outcome) {
    match s.step {
        Step::CommandLength => length_step(s, buf, store, |len: usize| Step::Command { len }),
        Step::KeyLength => length_step(s, buf, store, |len: usize| Step::Key { len }),
        Step::ValueLength => length_step(s, buf, store, |len: usize| Step::Value { len }),
        Step::Command { len } => if len == usize::MAX {
            (s, buf, store, Outcome::Abort)
        } else {
            let (r, rest) = field_scan(buf, len as nat);
            match r {
                Ok(None) => (s, rest, store, Outcome::NeedMore),
                Err(e) => (s, rest, store, Outcome::Fail(e)),
                Ok(Some(c)) => (
                    SessionView {
                        step: Step::KeyLength,
                        command: Some(ascii_upper_text(c)),
                        key: s.key,
                        authenticated: s.authenticated,
                    },
                    rest,
                    store,
                    Outcome::Continue,
                ),
            }
        },
        Step::Key { len } => if len == usize::MAX {
            (s, buf, store, Outcome::Abort)
        } else {
            let (r, rest) = field_scan(buf, len as nat);
            match r {
                Ok(None) => (s, rest, store, Outcome::NeedMore),
                Err(e) => (s, rest, store, Outcome::Fail(e)),
                Ok(Some(k)) => (
                    SessionView {
                        step: Step::ValueLength,
                        command: s.command,
                        key: Some(k),
                        authenticated: s.authenticated,
                    },
                    rest,
                    store,
                    Outcome::Continue,
                ),
            }
        },
        Step::Value { len } => if len == usize::MAX {
            (s, buf, store, Outcome::Abort)
        } else {
            let (r, rest) = field_scan(buf, len as nat);
            match r {
                Ok(None) => (s, rest, store, Outcome::NeedMore),
                Err(e) => (s, rest, store, Outcome::Fail(e)),
                Ok(Some(v)) => finish_request(
                    s,
                    if has_value(s.command) {
                        Some(v)
                    } else {
                        None
                    },
                    rest,
                    store,
                    users,
                ),
            }
        },
    }
}

/// A step that goes on (to the next step or with a reply) consumes bytes.
pub proof fn lemma_step_consumes(
    s: SessionView,
    buf: Seq<u8>,
    store: Map<Seq<char>, Seq<char>>,
    users: Map<Seq<char>, Seq<char>>,
)
    ensures
        ({
            let (_s1, rest, _t1, outcome) = transition(s, buf, store, users);
            (outcome is Continue || outcome is Reply) ==> rest.len() < buf.len()
        }),
{
    if has_dollar(buf) {
        lemma_first_dollar_exists(buf);
    }
}

/// Steps of the conversation on the bytes received so far, as long as each
/// goes on: the state, bytes left and table at the end, the replies sent on
/// the way, and how it ended (waiting, failed or aborted).
pub open spec fn run_steps(
    s: SessionView,
    buf: Seq<u8>,
    store: Map<Seq<char>, Seq<char>>,
    users: Map<Seq<char>, Seq<char>>,
) -> (SessionView, Seq<u8>, Map<Seq<char>, Seq<char>>, Seq<Seq<char>>, Outcome)
    decreases buf.len(),
{
    let (s1, rest, table, outcome) = transition(s, buf, store, users);
    proof {
        lemma_step_consumes(s, buf, store, users);
    }
    match outcome {
        Outcome::Continue => run_steps(s1, rest, table, users),
        Outcome::Reply(reply) => {
            let (s2, rest2, table2, replies, end) = run_steps(s1, rest, table, users);
            (s2, rest2, table2, seq![reply] + replies, end)
        },
        _ => (s1, rest, table, Seq::empty(), outcome),
    }
}

impl ConnectionState {
    /// A conversation that waits for its first request, not authenticated.
    pub fn new() -> (s: Self)
        ensures
            s@ == fresh_request(false),
    {
        ConnectionState { step: Step::CommandLength, command: None, key: None, authenticated: false }
    }

    /// Forgets the request in progress; authentication stays.
    pub fn reset_request(&mut self)
        ensures
            final(self)@ == fresh_request(old(self).authenticated),
    {
        self.step = Step::CommandLength;
        self.command = None;
        self.key = None;
    }
}

/// The framed text of a reply.
pub fn format_response(response: Response) -> (r: String)
    ensures
        r@ == response@,
{
    let (kind, value): (&str, String) = match response {
        Response::Error(value) => ("ERROR", value),
        Response::Success(value) => ("RESPONSE", value),
    };
    proof { reveal_strlit("$"); }
    let mut out = format_decimal(kind.as_bytes().len());
    out.append("$");
    out.append(kind);
    out.append("$");
    let value_len = format_decimal(value.as_str().as_bytes().len());
    out.append(value_len.as_str());
    out.append("$");
    out.append(value.as_str());
    out.append("$");
    out
}

/// Whether the command uses the value sent after its key (`AUTH` and `SET`).
pub fn command_has_value(command: Option<&str>) -> (r: bool)
    ensures
        r == has_value(
            match command {
                Some(c) => Some(c@),
                None => None,
            },
        ),
{
    match command {
        Some(c) => same_text(c, "AUTH") || same_text(c, "SET"),
        None => false,
    }
}

fn error_reply(message: &str) -> (r: String)
    ensures
        r@ == error_text(message@),
{
    format_response(Response::Error(String::from_str(message)))
}

fn success_reply(value: String) -> (r: String)
    ensures
        r@ == success_text(value@),
{
    format_response(Response::Success(value))
}

/// Answers `AUTH`: authenticates the client where the password matches the
/// one stored for the user.
pub fn handle_auth(state: &mut ConnectionState, request: &Request, auth_store: &Store) -> (r: String)
    requires
        auth_store.wf(),
    ensures
        ({
            let (a, reply) = auth_outcome(old(state).authenticated, request@, auth_store@);
            &&& final(state)@ == (SessionView { authenticated: a, ..old(state)@ })
            &&& r@ == reply
        }),
{
    let password = match &request.value {
        Some(p) => p,
        None => {
            return error_reply("password is required");
        },
    };
    match auth_store.get(&request.key) {
        Some(stored) => {
            if stored == *password {
                state.authenticated = true;
                success_reply(String::from_str("OK"))
            } else {
                error_reply("invalid credentials")
            }
        },
        None => error_reply("invalid credentials"),
    }
}

/// Carries out a complete request on the table and answers it.
pub fn handle_command(
    state: &mut ConnectionState,
    request: Request,
    store: &mut Store,
    auth_store: &Store,
) -> (r: String)
    requires
        old(store).wf(),
        auth_store.wf(),
    ensures
        final(store).wf(),
        ({
            let (a, table, reply) = command_outcome(
                old(state).authenticated,
                request@,
                old(store)@,
                auth_store@,
            );
            &&& final(state)@ == (SessionView { authenticated: a, ..old(state)@ })
            &&& final(store)@ == table
            &&& r@ == reply
        }),
{
    if same_text(request.command.as_str(), "AUTH") {
        return handle_auth(state, &request, auth_store);
    }
    let is_get = same_text(request.command.as_str(), "GET");
    let is_set = same_text(request.command.as_str(), "SET");
    let is_delete = same_text(request.command.as_str(), "DELETE");
    if (is_get || is_set || is_delete) && !state.authenticated {
        return error_reply("authentication required");
    }
    if is_get {
        let value = match store.get(&request.key) {
            Some(v) => v,
            None => String::new(),
        };
        success_reply(value)
    } else if is_set {
        let value = match request.value {
            Some(v) => v,
            None => String::new(),
        };
        store.insert(request.key, value);
        success_reply(String::new())
    } else if is_delete {
        store.remove(&request.key);
        success_reply(String::new())
    } else {
        let message = String::from_str("invalid command ").concat(request.command.as_str());
        format_response(Response::Error(message))
    }
}

fn text_or_default(o: &Option<String>) -> (s: String)
    ensures
        s@ == text_or_empty(opt_text(*o)),
{
    match o {
        Some(s) => s.clone(),
        None => String::new(),
    }
}

/// Answers the request whose parts `state` holds, with `value` as its value,
/// and makes the state ready for the next request.
fn answer(state: &mut ConnectionState, value: Option<String>, store: &mut Store, auth_store: &Store) -> (r: String)
    requires
        old(store).wf(),
        auth_store.wf(),
    ensures
        final(store).wf(),
        ({
            let (s2, _rest, table, outcome) = finish_request(
                old(state)@,
                opt_text(value),
                Seq::empty(),
                old(store)@,
                auth_store@,
            );
            &&& final(state)@ == s2
            &&& final(store)@ == table
            &&& outcome == Outcome::Reply(r@)
        }),
{
    let request = Request {
        command: text_or_default(&state.command),
        key: text_or_default(&state.key),
        value,
    };
    let response = handle_command(state, request, store, auth_store);
    state.reset_request();
    response
}

/// Takes one step of the conversation on the bytes received so far.
///
/// A length prefix moves on to its field; the command and the key move on to
/// the next length prefix; the value completes the request, which is then
/// carried out on `store` (with the value only where the command uses one) and
/// answered. Where too few bytes have arrived the caller is told to wait, and
/// where they are malformed to answer with an error.
pub fn handle_request_step(
    state: &mut ConnectionState,
    buffer: &mut Vec<u8>,
    store: &mut Store,
    auth_store: &Store,
) -> (a: Action)
    requires
        old(store).wf(),
        auth_store.wf(),
    ensures
        final(store).wf(),
        (final(state)@, final(buffer)@, final(store)@, a@) == transition(
            old(state)@,
            old(buffer)@,
            old(store)@,
            auth_store@,
        ),
{
    match state.step {
        Step::CommandLength => match parse_length(buffer) {
            Ok(None) => Action::NeedMore,
            Err(e) => Action::Fail(e),
            Ok(Some(len)) => {
                state.step = Step::Command { len };
                Action::Continue
            },
        },
        Step::KeyLength => match parse_length(buffer) {
            Ok(None) => Action::NeedMore,
            Err(e) => Action::Fail(e),
            Ok(Some(len)) => {
                state.step = Step::Key { len };
                Action::Continue
            },
        },
        Step::ValueLength => match parse_length(buffer) {
            Ok(None) => Action::NeedMore,
            Err(e) => Action::Fail(e),
            Ok(Some(len)) => {
                state.step = Step::Value { len };
                Action::Continue
            },
        },
        Step::Command { len } => {
            if len == usize::MAX {
                return Action::Abort;
            }
            match parse_field(buffer, len) {
                Ok(None) => Action::NeedMore,
                Err(e) => Action::Fail(e),
                Ok(Some(command)) => {
                    state.command = Some(to_ascii_uppercase(command.as_str()));
                    state.step = Step::KeyLength;
                    Action::Continue
                },
            }
        },
        Step::Key { len } => {
            if len == usize::MAX {
                return Action::Abort;
            }
            match parse_field(buffer, len) {
                Ok(None) => Action::NeedMore,
                Err(e) => Action::Fail(e),
                Ok(Some(key)) => {
                    state.key = Some(key);
                    state.step = Step::ValueLength;
                    Action::Continue
                },
            }
        },
        Step::Value { len } => {
            if len == usize::MAX {
                return Action::Abort;
            }
            match parse_field(buffer, len) {
                Ok(None) => Action::NeedMore,
                Err(e) => Action::Fail(e),
                Ok(Some(value)) => {
                    let has = match &state.command {
                        Some(c) => command_has_value(Some(c.as_str())),
                        None => command_has_value(None),
                    };
                    let value = if has {
                        Some(value)
                    } else {
                        None
                    };
                    let reply = answer(state, value, store, auth_store);
                    Action::Reply(reply)
                },
            }
        },
    }
}

} // verus!
