# b2fmsg

Winlink email over radio and the internet: the B2F message format, the
forwarding session, the LZHUF codec, and what a mail client and a WebSocket
bridge decide around them. The library is written in Verus. Every public
function in `src/` has a contract, and the promises that span functions are
proved as public proof functions named `law_...`.

- `src/lzhuf`, `src/base64`, `src/charset`, `src/date`: codecs and formats,
  each with the law that what was written is read back.
- `src/md5`, `src/secure`: the digest, and the secure login made from it.
- `src/message`: the message format, addresses, bodies, composing.
  `message/known_ids.rs` works out two message IDs.
- `src/session`: one forwarding session as a state machine, from bytes to
  events. `session/model.rs` says what each step does; the `*_laws.rs` files
  say what follows for whole turns, transfers and passwords.
- `src/agw`, `src/telnet`, `src/exchange`: the links a session runs over, and
  a whole exchange with its timeouts, packet lengths and password.
- `src/mailbox`, `src/ui`, `src/cli`, `src/bridge`, `src/web`: what the
  programs decide. They take plain values and return plain values; files,
  sockets, the terminal and the clock are in `app/`.
- `src/unicode.rs`: the functions of the standard library whose results are
  taken on trust.
- `app/`: the programs around the library.
- `tests/`: the library on concrete values.
