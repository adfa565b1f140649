# querykey_server

The verified core of the QueryKey server, a local-first personal
relationship manager: a markdown vault is the store of record and a
graph is derived from it.

- `src/` — the library, written in Verus: every function has a contract
  and is proved. Modules: `vault` (frontmatter framing, slugs, entity
  references, semantic-wikilink resolution, the privacy `.gitignore`
  block, the 24-hour card propagation), `card`, `wikilink`, `dashboard`,
  `calendar` (RRULE subset and occurrence expansion), `identity`,
  `workflow` (lifecycle rules), `graph` and `loca` (N-Triples projection
  and the stored triples with their read-back), `memory` (keyed record
  store), `openclaw` and `ws` (agent gateway messages and the chat
  stream), `ingest`, `mcp`, `config`, `discord`, `models`, `text`.
- `tests/` — tests of the library.
- `app/` — the server program: HTTP routes, WebSocket hub, agent
  gateway client, file I/O of the vault, configuration from the
  environment.
