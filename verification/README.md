# kwa

The logic of the kwa chat client and server, verified with Verus.

`src/` is the verified library:

- `text`, `urlenc`, `stamp`: decimal text of integers, percent-encoding of
  path segments (through `urlencoding`) and RFC 3339 instants (through `jiff`).
- `shared`, `wire_shared`, `wire`, `native`: identifiers and the bodies of
  requests and responses; the server's database codecs, transaction outcomes
  and the channel tree it answers with.
- `path`, `reqs`: request paths, written and read back, for every request
  that travels in a path.
- `kwaurl`: framing and splitting of `kwa:` URLs.
- `chat_time`, `feeds`, `infinite`: the order of chat entries, the decisions
  of the channel, outbox and controls feeds, and the logical state of the
  infinite scroller (reserves, realized entries, anchor, requests).
- `localdata`, `background`, `chat`, `sw`: the client's local lists, unread
  marks, outbox sending, the message box mode and the service worker's cache
  rules.

`app/` holds what stays outside: serde forms of the library's types, the
form-encoded query of `kwa:` URLs, JSON text of identities, and the floating
point layout of the scroller.

`tests/` runs the library on concrete values.
