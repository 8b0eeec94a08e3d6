# breadcrumbs

The logic of Breadcrumbs, a local dev diary that records AI coding sessions
(from OpenCode's database) and git commits, weaves them into a timeline and
writes deterministic markdown reports, optionally polished by a local Ollama
model. The logic is written in Verus and proved against its contracts.

## Layout

- `src/` — the verified library.
  - `text.rs`: decimal rendering and parsing, whitespace trimming, splitting
    and line splitting, each with the exact text it produces.
  - `order.rs`: the order of strings and a verified sort.
  - `report.rs`: the markdown report (`report_text`) and `render`, which
    writes it; laws on how its counts and token figures add up.
  - `report_rows.rs`: the rows of a period's report, from sessions and the
    commits made around them; laws that no commit is lost and no row dropped.
  - `timeline.rs`: each session with its commits, and the commits no session
    took in.
  - `git.rs`: `git log` arguments and output, repository discovery over
    directory listings, commits in a time window.
  - `opencode.rs`: the source schema, the batch query, reading and judging
    session rows, and the plan for each batch of a sync.
  - `db.rs`: project ids (FNV-1a of the path) and git roots.
  - `ai.rs`, `commands.rs`: Ollama requests and replies, stored settings.
  - `json.rs`: the calls into `serde_json`, with what they claim.
- `tests/` — tests of the library on concrete values.
- `app/` — the unverified side: SQLite, the file system, `git`, HTTP, the
  clock, and float formatting of token counts.
