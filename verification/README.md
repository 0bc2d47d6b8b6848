# lib: a small authenticated key-value cache

Clients speak a length-prefixed protocol: every field travels as
`LENGTH$FIELD$`. A request is `COMMAND_LENGTH$COMMAND$KEY_LENGTH$KEY$VALUE_LENGTH$VALUE$`,
for example `3$GET$4$NAME$6$RONNIE$`, and a reply is `8$RESPONSE$6$RONNIE$` or
`5$ERROR$23$authentication required$`. Only `AUTH` and `SET` use the value;
`GET` and `DELETE` read it and ignore it. `GET`, `SET` and `DELETE` need an
authenticated connection.

Layout:

- `src/framing.rs`: reading length prefixes and fields from the bytes received so far.
- `src/text.rs`: UTF-8 checks and decoding, ASCII upper case, decimal numerals.
- `src/store.rs`: the table from key to value (also used for users and passwords).
- `src/session.rs`: a client's conversation as a state machine, one step per call.
- `src/laws.rs`: properties of the protocol as a whole, proved.
- `app/main.rs`: the TCP server, its threads and locks, which drives the state machine.
