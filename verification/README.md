# artificiency-core

Local-first AI usage analytics with its behaviour stated as contracts and
proved by Verus: transcript parsing and incremental ingestion, the usage
store and its rollups (per model, per time bucket, overview, waste
diagnosis, hook cost), per-model pricing, config integrity checks and the
plugin timeline.

## Layout

- `src/` — the verified library.
  - `text`, `json`, `sort`: character and JSON models, ordering keys and a
    stable sort with its laws.
  - `collectors/`: the transcript parser (`claude_code`), ingestion of
    transcript chunks into the store (`ingest`), subscription limits.
  - `store`: the tables and their updates; `rollup`, `waste`, `activity`:
    the queries over them.
  - `pricing`, `integrity`, `plugins`, `dashboard`.
  - `laws`: properties spanning several operations.
- `tests/` — tests of the library on concrete values.
- `app/` — the shell around it: the SQLite file, filesystem and network
  collectors, float statistics, the dashboard's commands.
