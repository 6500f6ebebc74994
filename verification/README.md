# omamail read-only calendar and contact projections

A verified library for the read-only calendar and contact RPCs of a mail
client, and for the JMAP reads behind them. Every function in `src/` carries a
contract that Verus proves; the calls into `base64`, `serde_json` and `chrono`
stand behind trusted wrappers in `src/codec.rs` and `src/text.rs`.

## Layout

- `src/json.rs`: a JSON document as plain values (`Json`), its mathematical
  value (`JsonTree`) and the accessors the projections read.
- `src/text.rs`: character classes, UTF-8 lengths, cleaning and joining text.
- `src/codec.rs`: base64 (URL-safe, unpadded), the token payload in JSON, JSON
  string sizes, and the chrono parsing and formatting the calendar needs.
- `src/order.rs`: sorting rows by a lexicographic integer key.
- `src/providers/jmap/`: the JMAP side.
  - `mod.rs`: identifiers, the byte budget, method-call framing.
  - `paging.rs`: `QueryPager`, which follows a paged `*/query` to its end.
  - `calendar.rs`: calendar sources, source tokens, the event query and the
    projection of events onto rows.
  - `contacts.rs`: address books, card memberships, list rows, details and
    recipient candidates; the account rejection state of a session.
- `src/backend/`: the RPC parameters, the account registry lookup and the
  answers around the provider's result.
- `app/`: the asynchronous drivers (deadlines, registry work on blocking
  threads, JMAP round trips through a `Transport`) and the conversion between
  `serde_json` values and the library's documents.
- `tests/`: scenarios on concrete values.
