//! What holds of the protocol as a whole.
use vstd::prelude::*;
use vstd::utf8::*;
use crate::framing::{
    all_digits, digits_value, field_scan, first_dollar, has_dollar, is_dollar, is_first_dollar,
    length_scan, lemma_first_dollar_exists, lemma_first_dollar_unique,
};
use crate::session::{
    command_outcome, error_text, lemma_step_consumes, run_steps, success_text, text_or_empty,
    transition, Outcome, RequestView, SessionView, Step,
};
use crate::session::response_text;
use crate::text::{ascii_upper_text, decimal, decode_text, digit_char};

verus! {

/// The UTF-8 encoding of a concatenation is the concatenation of the encodings.
pub proof fn lemma_encode_utf8_concat(a: Seq<char>, b: Seq<char>)
    ensures
        encode_utf8(a + b) == encode_utf8(a) + encode_utf8(b),
    decreases a.len(),
{
    if a.len() == 0 {
        assert(a + b =~= b);
        assert(encode_utf8(a) + encode_utf8(b) =~= encode_utf8(b));
    } else {
        assert((a + b).drop_first() =~= a.drop_first() + b);
        assert((a + b)[0] == a[0]);
        lemma_encode_utf8_concat(a.drop_first(), b);
        assert(encode_utf8(a + b) =~= encode_scalar(a[0] as u32) + (encode_utf8(a.drop_first())
            + encode_utf8(b)));
    }
}

proof fn lemma_encode_ascii_char(c: char)
    requires
        (c as u32) < 128,
    ensures
        encode_utf8(seq![c]) == seq![c as u8],
{
    assert(is_ascii_chars(seq![c]));
    is_ascii_chars_encode_utf8(seq![c]);
    assert(encode_utf8(seq![c]) =~= seq![c as u8]);
}

/// The numeral of `n` is encoded as ASCII digits denoting `n`.
pub proof fn lemma_decimal_bytes(n: nat)
    ensures
        encode_utf8(decimal(n)).len() > 0,
        all_digits(encode_utf8(decimal(n))),
        digits_value(encode_utf8(decimal(n))) == n,
    decreases n,
{
    if n < 10 {
        let c = digit_char(n);
        assert(c as u32 == n + 48);
        lemma_encode_ascii_char(c);
        let d = encode_utf8(decimal(n));
        assert(d =~= seq![c as u8]);
        assert(d.drop_last() =~= Seq::<u8>::empty());
        assert((c as u8) as int == n + 48);
        assert(digits_value(d) == digits_value(d.drop_last()) * 10 + (d.last() - 48u8) as nat);
    } else {
        lemma_decimal_bytes(n / 10);
        let c = digit_char(n % 10);
        assert(c as u32 == n % 10 + 48);
        lemma_encode_ascii_char(c);
        assert(decimal(n) == decimal(n / 10) + seq![c]);
        lemma_encode_utf8_concat(decimal(n / 10), seq![c]);
        let d = encode_utf8(decimal(n));
        let p = encode_utf8(decimal(n / 10));
        assert(d =~= p.push(c as u8));
        assert(d.drop_last() =~= p);
        assert((c as u8) as int == n % 10 + 48);
        assert(digits_value(d) == digits_value(p) * 10 + (d.last() - 48u8) as nat);
        assert(n == (n / 10) * 10 + n % 10);
    }
}

/// A length prefix that was framed from `n` reads back as `n`, leaving what
/// follows its `$`.
pub proof fn lemma_length_roundtrip(n: usize, rest: Seq<u8>)
    ensures
        length_scan(encode_utf8(decimal(n as nat)) + seq![36u8] + rest) == (
            Ok::<Option<usize>, Seq<char>>(Some(n)),
            rest,
        ),
{
    let d = encode_utf8(decimal(n as nat));
    let buf = d + seq![36u8] + rest;
    lemma_decimal_bytes(n as nat);
    encode_utf8_valid_utf8(decimal(n as nat));
    assert forall|j: int| 0 <= j < d.len() implies !is_dollar(#[trigger] buf[j]) by {
        assert(buf[j] == d[j]);
    }
    assert(is_first_dollar(buf, d.len() as int));
    lemma_first_dollar_unique(buf, d.len() as int);
    assert(buf.take(d.len() as int) =~= d);
    assert(buf.skip(d.len() as int + 1) =~= rest);
}

/// A field framed from `text` reads back as `text`, leaving what follows its
/// `$`.
pub proof fn lemma_field_roundtrip(text: Seq<char>, rest: Seq<u8>)
    ensures
        field_scan(encode_utf8(text) + seq![36u8] + rest, encode_utf8(text).len()) == (
            Ok::<Option<Seq<char>>, Seq<char>>(Some(text)),
            rest,
        ),
{
    let e = encode_utf8(text);
    let buf = e + seq![36u8] + rest;
    encode_utf8_valid_utf8(text);
    encode_utf8_decode_utf8(text);
    assert(buf[e.len() as int] == 36u8);
    assert(buf.take(e.len() as int) =~= e);
    assert(buf.skip(e.len() as int + 1) =~= rest);
    assert(decode_text(e) == text);
}

/// A reply is framed like a request: reading its bytes back field by field
/// gives its kind and its value, and nothing is left over.
pub proof fn lemma_response_roundtrip(kind: Seq<char>, value: Seq<char>)
    requires
        encode_utf8(kind).len() < usize::MAX,
        encode_utf8(value).len() < usize::MAX,
    ensures
        ({
            let bytes = encode_utf8(response_text(kind, value));
            let kind_len = encode_utf8(kind).len() as usize;
            let value_len = encode_utf8(value).len() as usize;
            let (r1, b1) = length_scan(bytes);
            let (r2, b2) = field_scan(b1, kind_len as nat);
            let (r3, b3) = length_scan(b2);
            let (r4, b4) = field_scan(b3, value_len as nat);
            &&& r1 == Ok::<Option<usize>, Seq<char>>(Some(kind_len))
            &&& r2 == Ok::<Option<Seq<char>>, Seq<char>>(Some(kind))
            &&& r3 == Ok::<Option<usize>, Seq<char>>(Some(value_len))
            &&& r4 == Ok::<Option<Seq<char>>, Seq<char>>(Some(value))
            &&& b4 == Seq::<u8>::empty()
        }),
{
    let kind_len = encode_utf8(kind).len() as usize;
    let value_len = encode_utf8(value).len() as usize;
    let dollar = seq!['$'];
    lemma_encode_ascii_char('$');
    assert(encode_utf8(dollar) == seq![36u8]);
    let c1 = decimal(kind_len as nat);
    let c3 = decimal(value_len as nat);
    let t4 = dollar + kind + dollar + c3 + dollar + value + dollar;
    let t3 = kind + dollar + c3 + dollar + value + dollar;
    let t2 = dollar + c3 + dollar + value + dollar;
    let t1 = c3 + dollar + value + dollar;
    let t0 = dollar + value + dollar;
    let tv = value + dollar;
    assert(response_text(kind, value) =~= c1 + t4);
    assert(t4 =~= dollar + t3);
    assert(t3 =~= kind + t2);
    assert(t2 =~= dollar + t1);
    assert(t1 =~= c3 + t0);
    assert(t0 =~= dollar + tv);
    assert(tv =~= value + dollar);
    lemma_encode_utf8_concat(c1, t4);
    lemma_encode_utf8_concat(dollar, t3);
    lemma_encode_utf8_concat(kind, t2);
    lemma_encode_utf8_concat(dollar, t1);
    lemma_encode_utf8_concat(c3, t0);
    lemma_encode_utf8_concat(dollar, tv);
    lemma_encode_utf8_concat(value, dollar);
    let e1 = encode_utf8(c1);
    let ek = encode_utf8(kind);
    let e3 = encode_utf8(c3);
    let ev = encode_utf8(value);
    let d = seq![36u8];
    let bytes = encode_utf8(response_text(kind, value));
    let b1 = ek + d + (e3 + d + (ev + d));
    let b2 = e3 + d + (ev + d);
    let b3 = ev + d;
    assert(bytes =~= e1 + d + b1);
    lemma_length_roundtrip(kind_len, b1);
    lemma_field_roundtrip(kind, e3 + d + (ev + d));
    lemma_length_roundtrip(value_len, ev + d);
    assert(b3 =~= ev + d + Seq::<u8>::empty());
    lemma_field_roundtrip(value, Seq::<u8>::empty());
}

proof fn lemma_command_words_differ()
    ensures
        "AUTH"@ != "GET"@,
        "AUTH"@ != "SET"@,
        "AUTH"@ != "DELETE"@,
        "GET"@ != "SET"@,
        "GET"@ != "DELETE"@,
        "SET"@ != "DELETE"@,
{
    reveal_strlit("AUTH");
    reveal_strlit("GET");
    reveal_strlit("SET");
    reveal_strlit("DELETE");
    assert("AUTH"@.len() != "GET"@.len());
    assert("AUTH"@[0] != "SET"@[0]);
    assert("AUTH"@.len() != "DELETE"@.len());
    assert("GET"@[0] != "SET"@[0]);
    assert("GET"@.len() != "DELETE"@.len());
    assert("SET"@.len() != "DELETE"@.len());
}

/// For an authenticated client, `GET` answers with the value that the last
/// `SET` of the same key stored (the empty text where `SET` had no value).
pub proof fn law_get_reads_set(
    key: Seq<char>,
    value: Option<Seq<char>>,
    store: Map<Seq<char>, Seq<char>>,
    users: Map<Seq<char>, Seq<char>>,
)
    ensures
        ({
            let set = RequestView { command: "SET"@, key, value };
            let get = RequestView { command: "GET"@, key, value: None };
            let (a1, s1, r1) = command_outcome(true, set, store, users);
            let (a2, s2, r2) = command_outcome(a1, get, s1, users);
            &&& a1 && a2
            &&& s1 == store.insert(key, text_or_empty(value))
            &&& r1 == success_text(Seq::empty())
            &&& s2 == s1
            &&& r2 == success_text(text_or_empty(value))
        }),
{
    lemma_command_words_differ();
}

/// For an authenticated client, `GET` after `DELETE` of the same key answers
/// with the empty text.
pub proof fn law_get_after_delete(
    key: Seq<char>,
    value: Option<Seq<char>>,
    store: Map<Seq<char>, Seq<char>>,
    users: Map<Seq<char>, Seq<char>>,
)
    ensures
        ({
            let del = RequestView { command: "DELETE"@, key, value };
            let get = RequestView { command: "GET"@, key, value: None };
            let (a1, s1, r1) = command_outcome(true, del, store, users);
            let (a2, s2, r2) = command_outcome(a1, get, s1, users);
            &&& s1 == store.remove(key)
            &&& r1 == success_text(Seq::empty())
            &&& r2 == success_text(Seq::empty())
        }),
{
    lemma_command_words_differ();
}

/// Writing one key leaves what `GET` answers for every other key unchanged.
pub proof fn law_set_keeps_other_keys(
    key: Seq<char>,
    other: Seq<char>,
    value: Option<Seq<char>>,
    store: Map<Seq<char>, Seq<char>>,
    users: Map<Seq<char>, Seq<char>>,
)
    requires
        key != other,
    ensures
        ({
            let set = RequestView { command: "SET"@, key, value };
            let get = RequestView { command: "GET"@, key: other, value: None };
            let (a1, s1, r1) = command_outcome(true, set, store, users);
            command_outcome(true, get, s1, users).2 == command_outcome(true, get, store, users).2
        }),
{
    lemma_command_words_differ();
    let set = RequestView { command: "SET"@, key, value };
    let s1 = command_outcome(true, set, store, users).1;
    assert(s1.contains_key(other) == store.contains_key(other));
}

/// A client that has not authenticated gets `authentication required` for
/// `GET`, `SET` and `DELETE`, and the table is left as it was.
pub proof fn law_unauthenticated_refused(
    request: RequestView,
    store: Map<Seq<char>, Seq<char>>,
    users: Map<Seq<char>, Seq<char>>,
)
    requires
        request.command == "GET"@ || request.command == "SET"@ || request.command == "DELETE"@,
    ensures
        command_outcome(false, request, store, users) == (
            false,
            store,
            error_text("authentication required"@),
        ),
{
    lemma_command_words_differ();
}

/// `AUTH` with the password stored for the user authenticates the client and
/// answers `OK`; any other `AUTH` leaves authentication as it was and answers
/// with an error. `AUTH` never changes the table.
pub proof fn law_auth(
    authenticated: bool,
    request: RequestView,
    store: Map<Seq<char>, Seq<char>>,
    users: Map<Seq<char>, Seq<char>>,
)
    requires
        request.command == "AUTH"@,
    ensures
        ({
            let (a, s, r) = command_outcome(authenticated, request, store, users);
            let good = request.value is Some && users.contains_key(request.key)
                && users[request.key] == request.value->0;
            &&& s == store
            &&& good ==> a && r == success_text("OK"@)
            &&& !good ==> a == authenticated && (r == error_text("invalid credentials"@) || r
                == error_text("password is required"@))
        }),
{
}

/// Bytes that arrive later never change a step that could already be taken:
/// with more bytes behind the same input, the step does the same and leaves
/// the extra bytes after what it left before.
pub proof fn law_later_bytes_keep_step(
    s: SessionView,
    buf: Seq<u8>,
    more: Seq<u8>,
    store: Map<Seq<char>, Seq<char>>,
    users: Map<Seq<char>, Seq<char>>,
)
    requires
        transition(s, buf, store, users).3 != Outcome::NeedMore,
    ensures
        ({
            let (s1, b1, t1, o1) = transition(s, buf, store, users);
            transition(s, buf + more, store, users) == (s1, b1 + more, t1, o1)
        }),
{
    lemma_length_scan_extend(buf, more);
    match s.step {
        Step::Command { len } => lemma_field_scan_extend(buf, more, len as nat),
        Step::Key { len } => lemma_field_scan_extend(buf, more, len as nat),
        Step::Value { len } => lemma_field_scan_extend(buf, more, len as nat),
        _ => {},
    }
}

/// While a step waits for more bytes it changes nothing.
pub proof fn law_waiting_changes_nothing(
    s: SessionView,
    buf: Seq<u8>,
    store: Map<Seq<char>, Seq<char>>,
    users: Map<Seq<char>, Seq<char>>,
)
    requires
        transition(s, buf, store, users).3 == Outcome::NeedMore,
    ensures
        transition(s, buf, store, users) == (s, buf, store, Outcome::NeedMore),
{
}

/// Bytes may arrive in any pieces. Running the conversation on `first` until it
/// waits, then on what was left followed by `second`, sends the same replies,
/// leaves the same state, bytes and table, and ends the same way as running it
/// on `first + second` at once.
pub proof fn law_pieces_do_not_matter(
    s: SessionView,
    first: Seq<u8>,
    second: Seq<u8>,
    store: Map<Seq<char>, Seq<char>>,
    users: Map<Seq<char>, Seq<char>>,
)
    requires
        run_steps(s, first, store, users).4 == Outcome::NeedMore,
    ensures
        ({
            let (s1, rest1, t1, replies1, _end1) = run_steps(s, first, store, users);
            let (s2, rest2, t2, replies2, end2) = run_steps(s1, rest1 + second, t1, users);
            run_steps(s, first + second, store, users) == (s2, rest2, t2, replies1 + replies2, end2)
        }),
    decreases first.len(),
{
    let (sa, ra, ta, oa) = transition(s, first, store, users);
    lemma_step_consumes(s, first, store, users);
    if oa == Outcome::NeedMore {
        law_waiting_changes_nothing(s, first, store, users);
        let (s2, rest2, t2, replies2, end2) = run_steps(s, first + second, store, users);
        assert(Seq::<Seq<char>>::empty() + replies2 =~= replies2);
    } else {
        law_later_bytes_keep_step(s, first, second, store, users);
        match oa {
            Outcome::Continue => {
                law_pieces_do_not_matter(sa, ra, second, ta, users);
            },
            Outcome::Reply(r) => {
                law_pieces_do_not_matter(sa, ra, second, ta, users);
                let (s1, rest1, t1, replies1, _end1) = run_steps(sa, ra, ta, users);
                let (s2, rest2, t2, replies2, end2) = run_steps(s1, rest1 + second, t1, users);
                assert(seq![r] + (replies1 + replies2) =~= (seq![r] + replies1) + replies2);
            },
            _ => {},
        }
    }
}

/// One step of a conversation that is not authenticated neither reads nor
/// changes the table, and authenticates only by answering `OK` to `AUTH`.
proof fn lemma_step_before_auth(
    s: SessionView,
    buf: Seq<u8>,
    store1: Map<Seq<char>, Seq<char>>,
    store2: Map<Seq<char>, Seq<char>>,
    users: Map<Seq<char>, Seq<char>>,
)
    requires
        !s.authenticated,
    ensures
        ({
            let (s1, b1, t1, o1) = transition(s, buf, store1, users);
            let (s2, b2, t2, o2) = transition(s, buf, store2, users);
            &&& s1 == s2 && b1 == b2 && o1 == o2
            &&& t1 == store1 && t2 == store2
            &&& s1.authenticated ==> o1 == Outcome::Reply(success_text("OK"@))
        }),
{
    lemma_command_words_differ();
}

/// Authentication, once gained, lasts for the rest of the conversation.
proof fn lemma_run_keeps_auth(
    s: SessionView,
    buf: Seq<u8>,
    store: Map<Seq<char>, Seq<char>>,
    users: Map<Seq<char>, Seq<char>>,
)
    requires
        s.authenticated,
    ensures
        run_steps(s, buf, store, users).0.authenticated,
    decreases buf.len(),
{
    lemma_step_consumes(s, buf, store, users);
    let (s1, b1, t1, o1) = transition(s, buf, store, users);
    assert(s1.authenticated);
    match o1 {
        Outcome::Continue => lemma_run_keeps_auth(s1, b1, t1, users),
        Outcome::Reply(_) => lemma_run_keeps_auth(s1, b1, t1, users),
        _ => {},
    }
}

/// A conversation that starts without authentication reads and changes the
/// table only after an `AUTH` answered `OK`: where it is still not
/// authenticated at the end, it has left the table as it was, and with any
/// other table it would have sent the same replies and ended the same way;
/// where it is authenticated at the end, one of its replies was `OK`.
pub proof fn law_no_table_access_before_auth(
    s: SessionView,
    buf: Seq<u8>,
    store1: Map<Seq<char>, Seq<char>>,
    store2: Map<Seq<char>, Seq<char>>,
    users: Map<Seq<char>, Seq<char>>,
)
    requires
        !s.authenticated,
    ensures
        ({
            let (sa, ba, ta, ra, ea) = run_steps(s, buf, store1, users);
            let (sb, bb, tb, rb, eb) = run_steps(s, buf, store2, users);
            !sa.authenticated ==> ta == store1 && tb == store2 && sa == sb && ba == bb && ra == rb
                && ea == eb
        }),
        ({
            let (sa, ba, ta, ra, ea) = run_steps(s, buf, store1, users);
            sa.authenticated ==> exists|i: int| 0 <= i < ra.len() && ra[i] == success_text("OK"@)
        }),
    decreases buf.len(),
{
    lemma_step_consumes(s, buf, store1, users);
    lemma_step_before_auth(s, buf, store1, store2, users);
    lemma_auth_only_after_ok(s, buf, store1, users);
    let (s1, b1, t1, o1) = transition(s, buf, store1, users);
    let (s2, b2, t2, o2) = transition(s, buf, store2, users);
    if s1.authenticated {
        lemma_run_keeps_auth(s1, b1, t1, users);
        match o1 {
            Outcome::Reply(r) => {
                assert(run_steps(s, buf, store1, users).0.authenticated);
            },
            _ => {},
        }
    } else {
        match o1 {
            Outcome::Continue => {
                law_no_table_access_before_auth(s1, b1, t1, t2, users);
                assert(run_steps(s, buf, store1, users) == run_steps(s1, b1, t1, users));
                assert(run_steps(s, buf, store2, users) == run_steps(s1, b1, t2, users));
            },
            Outcome::Reply(r) => {
                law_no_table_access_before_auth(s1, b1, t1, t2, users);
                let (sx, bx, tx, rx, ex) = run_steps(s1, b1, t1, users);
                let (sy, by, ty, ry, ey) = run_steps(s1, b1, t2, users);
                assert(run_steps(s, buf, store1, users) == (sx, bx, tx, seq![r] + rx, ex));
                assert(run_steps(s, buf, store2, users) == (sy, by, ty, seq![r] + ry, ey));
            },
            _ => {
                assert(run_steps(s, buf, store1, users) == (s1, b1, t1, Seq::<Seq<char>>::empty(), o1));
                assert(run_steps(s, buf, store2, users) == (s1, b1, t2, Seq::<Seq<char>>::empty(), o1));
            },
        }
    }
}

/// Where a conversation that started without authentication ends
/// authenticated, one of its replies was `OK`.
proof fn lemma_auth_only_after_ok(
    s: SessionView,
    buf: Seq<u8>,
    store: Map<Seq<char>, Seq<char>>,
    users: Map<Seq<char>, Seq<char>>,
)
    requires
        !s.authenticated,
    ensures
        ({
            let (sa, ba, ta, ra, ea) = run_steps(s, buf, store, users);
            sa.authenticated ==> exists|i: int| 0 <= i < ra.len() && ra[i] == success_text("OK"@)
        }),
    decreases buf.len(),
{
    lemma_step_consumes(s, buf, store, users);
    lemma_step_before_auth(s, buf, store, store, users);
    let (s1, b1, t1, o1) = transition(s, buf, store, users);
    match o1 {
        Outcome::Reply(r) => {
            let (sx, bx, tx, rx, ex) = run_steps(s1, b1, t1, users);
            let ra = seq![r] + rx;
            assert(run_steps(s, buf, store, users).3 == ra);
            if s1.authenticated {
                assert(ra[0] == success_text("OK"@));
            } else {
                lemma_auth_only_after_ok(s1, b1, t1, users);
                if sx.authenticated {
                    let i = choose|i: int| 0 <= i < rx.len() && rx[i] == success_text("OK"@);
                    assert(ra[i + 1] == rx[i]);
                }
            }
        },
        Outcome::Continue => {
            if !s1.authenticated {
                lemma_auth_only_after_ok(s1, b1, t1, users);
            }
        },
        _ => {},
    }
}

/// All the pieces one after another.
pub open spec fn concat_all(pieces: Seq<Seq<u8>>) -> Seq<u8>
    decreases pieces.len(),
{
    if pieces.len() == 0 {
        Seq::empty()
    } else {
        pieces[0] + concat_all(pieces.drop_first())
    }
}

/// The conversation as a server carries it on: each piece of bytes, as it
/// arrives, is added to what is left, and the conversation runs until it
/// waits again; it stops at the first failure or abort.
pub open spec fn run_pieces(
    s: SessionView,
    rest: Seq<u8>,
    store: Map<Seq<char>, Seq<char>>,
    users: Map<Seq<char>, Seq<char>>,
    pieces: Seq<Seq<u8>>,
) -> (SessionView, Seq<u8>, Map<Seq<char>, Seq<char>>, Seq<Seq<char>>, Outcome)
    decreases pieces.len(),
{
    if pieces.len() == 0 {
        (s, rest, store, Seq::empty(), Outcome::NeedMore)
    } else {
        let (s1, b1, t1, r1, e1) = run_steps(s, rest + pieces[0], store, users);
        if e1 != Outcome::NeedMore {
            (s1, b1, t1, r1, e1)
        } else {
            let (s2, b2, t2, r2, e2) = run_pieces(s1, b1, t1, users, pieces.drop_first());
            (s2, b2, t2, r1 + r2, e2)
        }
    }
}

/// A run that ends waiting ends where a step waits.
proof fn lemma_run_ends_waiting(
    s: SessionView,
    buf: Seq<u8>,
    store: Map<Seq<char>, Seq<char>>,
    users: Map<Seq<char>, Seq<char>>,
)
    requires
        run_steps(s, buf, store, users).4 == Outcome::NeedMore,
    ensures
        ({
            let (s1, b1, t1, _r1, _e1) = run_steps(s, buf, store, users);
            transition(s1, b1, t1, users).3 == Outcome::NeedMore
        }),
    decreases buf.len(),
{
    lemma_step_consumes(s, buf, store, users);
    let (sa, ba, ta, oa) = transition(s, buf, store, users);
    match oa {
        Outcome::Continue => lemma_run_ends_waiting(sa, ba, ta, users),
        Outcome::Reply(_) => lemma_run_ends_waiting(sa, ba, ta, users),
        _ => {},
    }
}

/// A run that ends otherwise than waiting ends the same way with more bytes
/// behind its input, which it leaves after what it left before.
proof fn lemma_run_stops_early(
    s: SessionView,
    first: Seq<u8>,
    second: Seq<u8>,
    store: Map<Seq<char>, Seq<char>>,
    users: Map<Seq<char>, Seq<char>>,
)
    requires
        run_steps(s, first, store, users).4 != Outcome::NeedMore,
    ensures
        ({
            let (s1, b1, t1, r1, e1) = run_steps(s, first, store, users);
            run_steps(s, first + second, store, users) == (s1, b1 + second, t1, r1, e1)
        }),
    decreases first.len(),
{
    lemma_step_consumes(s, first, store, users);
    let (sa, ra, ta, oa) = transition(s, first, store, users);
    law_later_bytes_keep_step(s, first, second, store, users);
    match oa {
        Outcome::Continue => lemma_run_stops_early(sa, ra, second, ta, users),
        Outcome::Reply(_) => lemma_run_stops_early(sa, ra, second, ta, users),
        _ => {},
    }
}

/// Bytes may arrive in any number of pieces: carrying the conversation on
/// piece by piece sends the same replies, leaves the same state and table, and
/// ends the same way as running it on all the pieces at once; where it ends
/// waiting, the bytes left are the same too.
pub proof fn law_any_pieces(
    s: SessionView,
    rest: Seq<u8>,
    store: Map<Seq<char>, Seq<char>>,
    users: Map<Seq<char>, Seq<char>>,
    pieces: Seq<Seq<u8>>,
)
    requires
        transition(s, rest, store, users).3 == Outcome::NeedMore,
    ensures
        ({
            let (sa, ba, ta, ra, ea) = run_pieces(s, rest, store, users, pieces);
            let (sb, bb, tb, rb, eb) = run_steps(s, rest + concat_all(pieces), store, users);
            &&& sa == sb && ta == tb && ra == rb && ea == eb
            &&& ea == Outcome::NeedMore ==> ba == bb
        }),
    decreases pieces.len(),
{
    law_waiting_changes_nothing(s, rest, store, users);
    if pieces.len() == 0 {
        assert(rest + concat_all(pieces) =~= rest);
        lemma_step_consumes(s, rest, store, users);
    } else {
        let c0 = pieces[0];
        let tail = pieces.drop_first();
        assert(rest + concat_all(pieces) =~= (rest + c0) + concat_all(tail));
        let (s1, b1, t1, r1, e1) = run_steps(s, rest + c0, store, users);
        if e1 != Outcome::NeedMore {
            lemma_run_stops_early(s, rest + c0, concat_all(tail), store, users);
        } else {
            lemma_run_ends_waiting(s, rest + c0, store, users);
            law_pieces_do_not_matter(s, rest + c0, concat_all(tail), store, users);
            law_any_pieces(s1, b1, t1, users, tail);
        }
    }
}

/// A conversation ready for its next request, authenticated as `authenticated`
/// says.
pub open spec fn ready(authenticated: bool) -> SessionView {
    SessionView { step: Step::CommandLength, command: None, key: None, authenticated }
}

/// The step that reads a value of `len` bytes finds them and their `$` at the
/// front of `vb + $ + rest`, and leaves `rest`.
proof fn lemma_value_field(vb: Seq<u8>, rest: Seq<u8>)
    ensures
        ({
            let buf = vb + seq![36u8] + rest;
            &&& buf.len() >= vb.len() + 1
            &&& buf[vb.len() as int] == 36u8
            &&& buf.take(vb.len() as int) == vb
            &&& buf.skip(vb.len() as int + 1) == rest
        }),
{
    let buf = vb + seq![36u8] + rest;
    assert(buf.take(vb.len() as int) =~= vb);
    assert(buf.skip(vb.len() as int + 1) =~= rest);
}

/// `SET` stores the value sent under the key, replacing whatever the table
/// held for that key, and answers with an empty success; the conversation is
/// then ready for its next request.
pub proof fn law_set_step_stores_value(
    s: SessionView,
    key: Seq<char>,
    value: Seq<char>,
    rest: Seq<u8>,
    store: Map<Seq<char>, Seq<char>>,
    users: Map<Seq<char>, Seq<char>>,
)
    requires
        s.authenticated,
        s.command == Some("SET"@),
        s.key == Some(key),
        encode_utf8(value).len() < usize::MAX,
        s.step == (Step::Value { len: encode_utf8(value).len() as usize }),
    ensures
        transition(s, encode_utf8(value) + seq![36u8] + rest, store, users) == (
            ready(true),
            rest,
            store.insert(key, value),
            Outcome::Reply(success_text(Seq::empty())),
        ),
        store.insert(key, value)[key] == value,
{
    lemma_command_words_differ();
    lemma_value_field(encode_utf8(value), rest);
    encode_utf8_valid_utf8(value);
    encode_utf8_decode_utf8(value);
}

/// `GET` answers with the whole value stored under the key (the empty text
/// where there is none), whatever value was sent with it, and leaves the table
/// as it was.
pub proof fn law_get_step_answers_stored_value(
    s: SessionView,
    key: Seq<char>,
    sent: Seq<u8>,
    rest: Seq<u8>,
    store: Map<Seq<char>, Seq<char>>,
    users: Map<Seq<char>, Seq<char>>,
)
    requires
        s.authenticated,
        s.command == Some("GET"@),
        s.key == Some(key),
        sent.len() < usize::MAX,
        s.step == (Step::Value { len: sent.len() as usize }),
    ensures
        transition(s, sent + seq![36u8] + rest, store, users) == (
            ready(true),
            rest,
            store,
            Outcome::Reply(
                success_text(
                    if store.contains_key(key) {
                        store[key]
                    } else {
                        Seq::empty()
                    },
                ),
            ),
        ),
{
    lemma_command_words_differ();
    lemma_value_field(sent, rest);
}

/// `AUTH` with the password stored for the user authenticates the
/// conversation and answers `OK`, whatever the password.
pub proof fn law_auth_step_accepts_stored_password(
    s: SessionView,
    user: Seq<char>,
    password: Seq<char>,
    rest: Seq<u8>,
    store: Map<Seq<char>, Seq<char>>,
    users: Map<Seq<char>, Seq<char>>,
)
    requires
        s.command == Some("AUTH"@),
        s.key == Some(user),
        users.contains_key(user),
        users[user] == password,
        encode_utf8(password).len() < usize::MAX,
        s.step == (Step::Value { len: encode_utf8(password).len() as usize }),
    ensures
        transition(s, encode_utf8(password) + seq![36u8] + rest, store, users) == (
            ready(true),
            rest,
            store,
            Outcome::Reply(success_text("OK"@)),
        ),
{
    lemma_command_words_differ();
    lemma_value_field(encode_utf8(password), rest);
    encode_utf8_valid_utf8(password);
    encode_utf8_decode_utf8(password);
}

/// Any command other than `AUTH`, `GET`, `SET` and `DELETE` is answered
/// `invalid command` followed by the command, authenticated or not, and the
/// table and authentication stay as they were.
pub proof fn law_unknown_command_refused(
    authenticated: bool,
    request: RequestView,
    store: Map<Seq<char>, Seq<char>>,
    users: Map<Seq<char>, Seq<char>>,
)
    requires
        request.command != "AUTH"@,
        request.command != "GET"@,
        request.command != "SET"@,
        request.command != "DELETE"@,
    ensures
        command_outcome(authenticated, request, store, users) == (
            authenticated,
            store,
            error_text("invalid command "@ + request.command),
        ),
{
}

/// The same, as a step of the conversation: the value step that completes a
/// request with any other command answers `invalid command` followed by the
/// command, and changes neither the table nor authentication.
pub proof fn law_unknown_command_step(
    s: SessionView,
    command: Seq<char>,
    sent: Seq<u8>,
    rest: Seq<u8>,
    store: Map<Seq<char>, Seq<char>>,
    users: Map<Seq<char>, Seq<char>>,
)
    requires
        s.command == Some(command),
        command != "AUTH"@,
        command != "GET"@,
        command != "SET"@,
        command != "DELETE"@,
        sent.len() < usize::MAX,
        s.step == (Step::Value { len: sent.len() as usize }),
    ensures
        transition(s, sent + seq![36u8] + rest, store, users) == (
            ready(s.authenticated),
            rest,
            store,
            Outcome::Reply(error_text("invalid command "@ + command)),
        ),
{
    lemma_value_field(sent, rest);
}

/// A field of any length below `usize::MAX` is read: no step aborts there.
pub proof fn law_field_steps_never_abort(
    s: SessionView,
    buf: Seq<u8>,
    store: Map<Seq<char>, Seq<char>>,
    users: Map<Seq<char>, Seq<char>>,
)
    requires
        match s.step {
            Step::Command { len } => len < usize::MAX,
            Step::Key { len } => len < usize::MAX,
            Step::Value { len } => len < usize::MAX,
            _ => true,
        },
    ensures
        transition(s, buf, store, users).3 != Outcome::Abort,
{
}

/// Once a value's bytes and its `$` have arrived, however long the value, the
/// request is answered.
pub proof fn law_value_step_answers(
    s: SessionView,
    len: usize,
    buf: Seq<u8>,
    store: Map<Seq<char>, Seq<char>>,
    users: Map<Seq<char>, Seq<char>>,
)
    requires
        s.step == (Step::Value { len }),
        len < usize::MAX,
        buf.len() > len,
        buf[len as int] == 36u8,
    ensures
        transition(s, buf, store, users).3 is Reply,
        transition(s, buf, store, users).1 == buf.skip(len + 1),
{
}

/// The bytes of one field: its length in bytes, `$`, the text, `$`.
pub open spec fn field_bytes(t: Seq<char>) -> Seq<u8> {
    encode_utf8(decimal(encode_utf8(t).len())) + seq![36u8] + encode_utf8(t) + seq![36u8]
}

/// The bytes of a request: command, key and value, each as a field.
pub open spec fn request_bytes(command: Seq<char>, key: Seq<char>, value: Seq<char>) -> Seq<u8> {
    field_bytes(command) + field_bytes(key) + field_bytes(value)
}

/// Reading a whole field off the front: its length, then its text.
proof fn lemma_read_field(
    t: Seq<char>,
    rest: Seq<u8>,
)
    requires
        encode_utf8(t).len() < usize::MAX,
    ensures
        length_scan(field_bytes(t) + rest) == (
            Ok::<Option<usize>, Seq<char>>(Some(encode_utf8(t).len() as usize)),
            encode_utf8(t) + seq![36u8] + rest,
        ),
        field_scan(encode_utf8(t) + seq![36u8] + rest, encode_utf8(t).len()) == (
            Ok::<Option<Seq<char>>, Seq<char>>(Some(t)),
            rest,
        ),
{
    let n = encode_utf8(t).len() as usize;
    assert(field_bytes(t) + rest =~= encode_utf8(decimal(n as nat)) + seq![36u8] + (encode_utf8(t)
        + seq![36u8] + rest));
    lemma_length_roundtrip(n, encode_utf8(t) + seq![36u8] + rest);
    lemma_field_roundtrip(t, rest);
}

/// Running a conversation that is ready for a request over the bytes of a
/// whole request takes it to the step that reads the value, and from there on
/// as that step goes.
proof fn lemma_run_request(
    authenticated: bool,
    command: Seq<char>,
    key: Seq<char>,
    value: Seq<char>,
    rest: Seq<u8>,
    store: Map<Seq<char>, Seq<char>>,
    users: Map<Seq<char>, Seq<char>>,
)
    requires
        ascii_upper_text(command) == command,
        encode_utf8(command).len() < usize::MAX,
        encode_utf8(key).len() < usize::MAX,
        encode_utf8(value).len() < usize::MAX,
    ensures
        ({
            let at_value = SessionView {
                step: Step::Value { len: encode_utf8(value).len() as usize },
                command: Some(command),
                key: Some(key),
                authenticated,
            };
            run_steps(ready(authenticated), request_bytes(command, key, value) + rest, store, users)
                == run_steps(at_value, encode_utf8(value) + seq![36u8] + rest, store, users)
        }),
{
    let fk = field_bytes(key);
    let fv = field_bytes(value);
    let tail_c = fk + fv + rest;
    let tail_k = fv + rest;
    assert(request_bytes(command, key, value) + rest =~= field_bytes(command) + tail_c);
    assert(fk + fv + rest =~= field_bytes(key) + tail_k);
    lemma_read_field(command, tail_c);
    lemma_read_field(key, tail_k);
    lemma_read_field(value, rest);
    let nc = encode_utf8(command).len() as usize;
    let nk = encode_utf8(key).len() as usize;
    let nv = encode_utf8(value).len() as usize;
    let s0 = ready(authenticated);
    let s1 = SessionView { step: Step::Command { len: nc }, ..s0 };
    let s2 = SessionView { step: Step::KeyLength, command: Some(command), ..s0 };
    let s3 = SessionView { step: Step::Key { len: nk }, ..s2 };
    let s4 = SessionView { step: Step::ValueLength, key: Some(key), ..s2 };
    let s5 = SessionView { step: Step::Value { len: nv }, ..s4 };
    let b0 = field_bytes(command) + tail_c;
    let b1 = encode_utf8(command) + seq![36u8] + tail_c;
    let b2 = tail_c;
    let b3 = encode_utf8(key) + seq![36u8] + tail_k;
    let b4 = tail_k;
    let b5 = encode_utf8(value) + seq![36u8] + rest;
    assert(transition(s0, b0, store, users) == (s1, b1, store, Outcome::Continue));
    assert(transition(s1, b1, store, users) == (s2, b2, store, Outcome::Continue));
    assert(transition(s2, b2, store, users) == (s3, b3, store, Outcome::Continue));
    assert(transition(s3, b3, store, users) == (s4, b4, store, Outcome::Continue));
    assert(transition(s4, b4, store, users) == (s5, b5, store, Outcome::Continue));
    assert(run_steps(s4, b4, store, users) == run_steps(s5, b5, store, users));
    assert(run_steps(s3, b3, store, users) == run_steps(s4, b4, store, users));
    assert(run_steps(s2, b2, store, users) == run_steps(s3, b3, store, users));
    assert(run_steps(s1, b1, store, users) == run_steps(s2, b2, store, users));
    assert(run_steps(s0, b0, store, users) == run_steps(s1, b1, store, users));
}

/// In one authenticated conversation, `SET` of a key followed by `GET` of the
/// same key answers the value that `SET` sent, whatever the table held before
/// and whatever value was sent with `GET`; the table ends with the key mapped
/// to that value.
pub proof fn law_conversation_set_then_get(
    key: Seq<char>,
    value: Seq<char>,
    get_value: Seq<char>,
    store: Map<Seq<char>, Seq<char>>,
    users: Map<Seq<char>, Seq<char>>,
)
    requires
        encode_utf8(key).len() < usize::MAX,
        encode_utf8(value).len() < usize::MAX,
        encode_utf8(get_value).len() < usize::MAX,
    ensures
        run_steps(
            ready(true),
            request_bytes("SET"@, key, value) + request_bytes("GET"@, key, get_value),
            store,
            users,
        ) == (
            ready(true),
            Seq::<u8>::empty(),
            store.insert(key, value),
            seq![success_text(Seq::empty()), success_text(value)],
            Outcome::NeedMore,
        ),
{
    reveal_strlit("SET");
    reveal_strlit("GET");
    assert(ascii_upper_text("SET"@) =~= "SET"@);
    assert(ascii_upper_text("GET"@) =~= "GET"@);
    assert(encode_utf8("SET"@).len() == 3) by {
        is_ascii_chars_encode_utf8("SET"@);
    }
    assert(encode_utf8("GET"@).len() == 3) by {
        is_ascii_chars_encode_utf8("GET"@);
    }
    let get_bytes = request_bytes("GET"@, key, get_value);
    let t1 = store.insert(key, value);
    lemma_run_request(true, "SET"@, key, value, get_bytes, store, users);
    let sv = SessionView {
        step: Step::Value { len: encode_utf8(value).len() as usize },
        command: Some("SET"@),
        key: Some(key),
        authenticated: true,
    };
    law_set_step_stores_value(sv, key, value, get_bytes, store, users);
    assert(get_bytes =~= get_bytes + Seq::<u8>::empty());
    lemma_run_request(true, "GET"@, key, get_value, Seq::<u8>::empty(), t1, users);
    let gv = SessionView {
        step: Step::Value { len: encode_utf8(get_value).len() as usize },
        command: Some("GET"@),
        key: Some(key),
        authenticated: true,
    };
    law_get_step_answers_stored_value(gv, key, encode_utf8(get_value), Seq::<u8>::empty(), t1, users);
    lemma_step_consumes(ready(true), Seq::<u8>::empty(), t1, users);
    assert(transition(ready(true), Seq::<u8>::empty(), t1, users).3 == Outcome::NeedMore);
    let end = run_steps(ready(true), Seq::<u8>::empty(), t1, users);
    assert(end == (ready(true), Seq::<u8>::empty(), t1, Seq::<Seq<char>>::empty(), Outcome::NeedMore));
    let after_get = run_steps(gv, encode_utf8(get_value) + seq![36u8] + Seq::<u8>::empty(), t1, users);
    assert(after_get.3 =~= seq![success_text(value)]);
    let whole = run_steps(sv, encode_utf8(value) + seq![36u8] + get_bytes, store, users);
    assert(whole.3 =~= seq![success_text(Seq::empty()), success_text(value)]);
}

proof fn lemma_length_scan_extend(buf: Seq<u8>, more: Seq<u8>)
    ensures
        length_scan(buf).0 != Ok::<Option<usize>, Seq<char>>(None) ==> length_scan(buf + more) == (
            length_scan(buf).0,
            length_scan(buf).1 + more,
        ),
{
    if has_dollar(buf) {
        let pos = first_dollar(buf);
        lemma_first_dollar_exists(buf);
        let big = buf + more;
        assert forall|j: int| 0 <= j < pos implies !is_dollar(#[trigger] big[j]) by {
            assert(big[j] == buf[j]);
        }
        assert(big[pos] == buf[pos]);
        assert(is_first_dollar(big, pos));
        lemma_first_dollar_unique(big, pos);
        assert(big.take(pos) =~= buf.take(pos));
        assert(big.skip(pos + 1) =~= buf.skip(pos + 1) + more);
    }
}

proof fn lemma_field_scan_extend(buf: Seq<u8>, more: Seq<u8>, len: nat)
    ensures
        field_scan(buf, len).0 != Ok::<Option<Seq<char>>, Seq<char>>(None) ==> field_scan(
            buf + more,
            len,
        ) == (field_scan(buf, len).0, field_scan(buf, len).1 + more),
{
    if buf.len() >= len + 1 {
        let big = buf + more;
        assert(big[len as int] == buf[len as int]);
        assert(big.take(len as int) =~= buf.take(len as int));
        assert(big.skip(len as int + 1) =~= buf.skip(len as int + 1) + more);
    }
}

} // verus!
